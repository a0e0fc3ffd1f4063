use chrono::{Datelike, NaiveDate};
use gundi::output::{
    build_summary, format_markdown, format_summary, format_table, truncate_chars,
    truncate_chars_end,
};
use gundi::{
    apply_filters, hits_to_items, parse_porcelain_blame, sort_oldest_first, CommentType, Date,
    DebtItem, Filters, RawHit,
};

fn day(y: i32, m: u32, d: u32) -> Date {
    Date {
        days_from_ce: NaiveDate::from_ymd_opt(y, m, d).unwrap().num_days_from_ce(),
    }
}

fn make_filter_item(ctype: CommentType, author: Option<&str>, days: Option<i64>) -> DebtItem {
    DebtItem {
        file: "test.rs".to_string(),
        line: 1,
        comment_type: ctype,
        text: "test".to_string(),
        author: author.map(String::from),
        date: Some(day(2024, 1, 1)),
        days_ago: days,
    }
}

fn make_output_item(ctype: CommentType, author: &str, days: i64) -> DebtItem {
    DebtItem {
        file: "src/main.rs".to_string(),
        line: 1,
        comment_type: ctype,
        text: "fix this".to_string(),
        author: Some(author.to_string()),
        date: Some(day(2024, 1, 1)),
        days_ago: Some(days),
    }
}

#[test]
fn test_parse_porcelain_blame() {
    let output = "\
abcdef1234567890abcdef1234567890abcdef12 1 1 1
author Alice
author-mail <alice@example.com>
author-time 1700000000
author-tz +0000
committer Alice
committer-mail <alice@example.com>
committer-time 1700000000
committer-tz +0000
summary Initial commit
filename test.rs
\t// TODO: fix this
";
    let result = parse_porcelain_blame(output).unwrap();
    assert_eq!(result.len(), 1);
    let info = result.get(&1).unwrap();
    assert_eq!(info.author, "Alice");
    assert_eq!(info.date, day(2023, 11, 14));
}

#[test]
fn test_parse_empty_blame() {
    let result = parse_porcelain_blame("").unwrap();
    assert!(result.is_empty());
}

#[test]
fn test_parse_multiline_same_commit() {
    let output = "\
abcdef1234567890abcdef1234567890abcdef12 1 1 2
author Alice
author-mail <alice@example.com>
author-time 1700000000
author-tz +0000
committer Alice
committer-mail <alice@example.com>
committer-time 1700000000
committer-tz +0000
summary Initial commit
filename test.rs
\t// TODO: fix this
abcdef1234567890abcdef1234567890abcdef12 2 2
\t// FIXME: also broken
";
    let result = parse_porcelain_blame(output).unwrap();
    assert_eq!(result.len(), 2);

    let info1 = result.get(&1).unwrap();
    assert_eq!(info1.author, "Alice");

    let info2 = result.get(&2).unwrap();
    assert_eq!(info2.author, "Alice");
    assert_eq!(info2.date, day(2023, 11, 14));
}

#[test]
fn test_filter_by_type() {
    let items = vec![
        make_filter_item(CommentType::Todo, Some("Alice"), Some(10)),
        make_filter_item(CommentType::Fixme, Some("Bob"), Some(20)),
        make_filter_item(CommentType::Hack, Some("Alice"), Some(30)),
    ];

    let filters = Filters {
        types: Some(vec![CommentType::Todo, CommentType::Hack]),
        ..Default::default()
    };

    let result = apply_filters(items, &filters);
    assert_eq!(result.len(), 2);
    assert_eq!(result[0].comment_type, CommentType::Todo);
    assert_eq!(result[1].comment_type, CommentType::Hack);
}

#[test]
fn test_filter_by_author() {
    let items = vec![
        make_filter_item(CommentType::Todo, Some("Alice Smith"), Some(10)),
        make_filter_item(CommentType::Fixme, Some("Bob Jones"), Some(20)),
    ];

    let filters = Filters {
        author: Some("alice".to_string()),
        ..Default::default()
    };

    let result = apply_filters(items, &filters);
    assert_eq!(result.len(), 1);
    assert_eq!(result[0].author.as_deref(), Some("Alice Smith"));
}

#[test]
fn test_filter_by_age() {
    let items = vec![
        make_filter_item(CommentType::Todo, Some("Alice"), Some(10)),
        make_filter_item(CommentType::Fixme, Some("Bob"), Some(50)),
        make_filter_item(CommentType::Hack, Some("Charlie"), Some(100)),
    ];

    let filters = Filters {
        older_than: Some(30),
        ..Default::default()
    };

    let result = apply_filters(items, &filters);
    assert_eq!(result.len(), 2);
}

#[test]
fn test_combined_filters() {
    let items = vec![
        make_filter_item(CommentType::Todo, Some("Alice"), Some(100)),
        make_filter_item(CommentType::Todo, Some("Bob"), Some(5)),
        make_filter_item(CommentType::Fixme, Some("Alice"), Some(100)),
    ];

    let filters = Filters {
        types: Some(vec![CommentType::Todo]),
        author: Some("alice".to_string()),
        older_than: Some(30),
    };

    let result = apply_filters(items, &filters);
    assert_eq!(result.len(), 1);
    assert_eq!(result[0].comment_type, CommentType::Todo);
    assert_eq!(result[0].author.as_deref(), Some("Alice"));
}

#[test]
fn test_no_filters() {
    let items = vec![
        make_filter_item(CommentType::Todo, Some("Alice"), Some(10)),
        make_filter_item(CommentType::Fixme, Some("Bob"), Some(20)),
    ];

    let filters = Filters::default();
    let result = apply_filters(items, &filters);
    assert_eq!(result.len(), 2);
}

#[test]
fn test_sort_oldest_first() {
    let mut items = vec![
        make_filter_item(CommentType::Todo, Some("A"), Some(10)),
        make_filter_item(CommentType::Fixme, Some("B"), Some(100)),
        make_filter_item(CommentType::Hack, Some("C"), Some(50)),
        make_filter_item(CommentType::Bug, Some("D"), None),
    ];

    sort_oldest_first(&mut items);

    assert_eq!(items[0].days_ago, Some(100));
    assert_eq!(items[1].days_ago, Some(50));
    assert_eq!(items[2].days_ago, Some(10));
    assert_eq!(items[3].days_ago, None);
}

#[test]
fn test_format_table_empty() {
    let result = format_table(&[]);
    assert!(result.contains("No code debt found"));
}

#[test]
fn test_format_table_with_items() {
    let items = vec![make_output_item(CommentType::Todo, "Alice", 10)];
    let result = format_table(&items);
    assert!(result.contains("TODO"));
    assert!(result.contains("src/main.rs"));
    assert!(result.contains("Total: 1 items"));
}

#[test]
fn test_format_markdown() {
    let items = vec![make_output_item(CommentType::Fixme, "Bob", 50)];
    let result = format_markdown(&items);
    assert!(result.contains("| FIXME |"));
    assert!(result.contains("Bob"));
    assert!(result.contains("**Total: 1 items**"));
}

#[test]
fn test_format_markdown_empty() {
    let result = format_markdown(&[]);
    assert!(result.contains("No code debt found"));
}

#[test]
fn test_build_summary() {
    let items = vec![
        make_output_item(CommentType::Todo, "Alice", 10),
        make_output_item(CommentType::Todo, "Bob", 100),
        make_output_item(CommentType::Fixme, "Alice", 50),
    ];

    let summary = build_summary(&items);
    assert_eq!(summary.total, 3);
    assert_eq!(summary.oldest_days, Some(100));
    assert_eq!(summary.newest_days, Some(10));
    assert_eq!(summary.by_type[0].0, "TODO");
    assert_eq!(summary.by_type[0].1, 2);
}

#[test]
fn test_format_summary() {
    let items = vec![
        make_output_item(CommentType::Todo, "Alice", 10),
        make_output_item(CommentType::Fixme, "Bob", 50),
    ];
    let summary = build_summary(&items);
    let output = format_summary(&summary);
    assert!(output.contains("2 total items"));
    assert!(output.contains("By Type:"));
    assert!(output.contains("By Author:"));
}

#[test]
fn test_truncate_chars_short() {
    assert_eq!(truncate_chars("hello", 10), "hello");
    assert_eq!(truncate_chars("", 10), "");
}

#[test]
fn test_truncate_chars_long_ascii() {
    let result = truncate_chars("abcdefghijklmnop", 10);
    assert!(result.ends_with('…'));
    assert_eq!(result.chars().count(), 10);
}

#[test]
fn test_truncate_chars_multi_byte_safe() {
    let input = "한국어한국어한국어한국어";
    let result = truncate_chars(input, 5);
    assert_eq!(result.chars().count(), 5);
    assert!(result.ends_with('…'));
}

#[test]
fn test_truncate_chars_end_keeps_tail() {
    let result = truncate_chars_end("very/deeply/nested/path/to/file.rs", 15);
    assert!(result.starts_with('…'));
    assert!(result.ends_with("file.rs"));
    assert_eq!(result.chars().count(), 15);
}

#[test]
fn test_format_table_with_unicode_does_not_panic() {
    let item = DebtItem {
        file: "src/한국어/very/long/path/to/some/deeply/nested/file.rs".to_string(),
        line: 42,
        comment_type: CommentType::Todo,
        text: "修复这个非常非常非常长的注释 with αβγ and 🦀 emoji to ensure no panic".to_string(),
        author: Some("作者非常长的名字".to_string()),
        date: Some(day(2024, 1, 1)),
        days_ago: Some(100),
    };
    let result = format_table(&[item]);
    assert!(result.contains("TODO"));
    assert!(result.contains("Total: 1 items"));
}

#[test]
fn test_hits_to_items() {
    let hits = vec![RawHit {
        file: "src/main.rs".to_string(),
        line: 10,
        comment_type: CommentType::Todo,
        text: "fix this".to_string(),
    }];

    let items = hits_to_items(hits);
    assert_eq!(items.len(), 1);
    assert_eq!(items[0].file, "src/main.rs");
    assert!(items[0].author.is_none());
    assert!(items[0].days_ago.is_none());
}
