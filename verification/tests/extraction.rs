use beancount_lsp::providers::formatting::extraction::{
    calculate_format_config, extract_formateable_lines, extract_line_components,
    lines_from_matches, ExtractionError, FormatConfig, FormatableLine, FormattingConfig,
};
use beancount_lsp::syntax::{Capture, Node, Point};
use beancount_lsp::treesitter_utils::LineIndex;
use tree_sitter_beancount::tree_sitter::{Parser, Query, Tree};

fn parse(text: &str) -> Tree {
    let mut parser = Parser::new();
    parser.set_language(&tree_sitter_beancount::language()).unwrap();
    parser.parse(text, None).unwrap()
}

fn format_query() -> Query {
    Query::new(
        &tree_sitter_beancount::language(),
        "(posting account: (account) @prefix amount: (incomplete_amount (number) @number))",
    )
    .unwrap()
}

fn node(start: usize, end: usize, row: usize) -> Node {
    Node { start_byte: start, end_byte: end, start_position: Point::new(row, 0) }
}

fn line(prefix: &str, number: &str) -> FormatableLine {
    FormatableLine {
        line_num: 0,
        prefix: prefix.to_string(),
        number: number.to_string(),
        rest: String::new(),
    }
}

const LEDGER: &str = "2024-01-02 * \"Café\"\n  Expenses:Caffè  2.50 EUR ; note\n  Assets:Cash    12.50 EUR\n  Assets:Rest\n";

#[test]
fn postings_are_extracted() {
    let index = LineIndex::new(LEDGER);
    let lines = extract_formateable_lines(&index, &parse(LEDGER), &format_query()).unwrap();
    assert_eq!(lines.len(), 2);
    assert_eq!(lines[0].line_num, 1);
    assert_eq!(lines[0].prefix, "  Expenses:Caffè");
    assert_eq!(lines[0].number, "2.50");
    assert_eq!(lines[0].rest, " EUR ; note\n");
    assert_eq!(lines[1].line_num, 2);
    assert_eq!(lines[1].prefix, "  Assets:Cash");
    assert_eq!(lines[1].number, "12.50");
    assert_eq!(lines[1].rest, " EUR\n");
}

#[test]
fn components_make_up_the_line() {
    let text = "x\n  Assets:A \u{3000}\t 1.00 USD\nrest";
    let index = LineIndex::new(text);
    let start = text.find("Assets").unwrap();
    let number = text.find("1.00").unwrap();
    let found = extract_line_components(&index, node(start, start + 8, 1), node(number, number + 4, 1))
        .unwrap();
    assert_eq!(found.prefix, "  Assets:A");
    assert_eq!(found.number, "1.00");
    assert_eq!(found.rest, " USD\n");
    let gap = &text[start + 8..number];
    assert_eq!(format!("{}{}{}{}", found.prefix, gap, found.number, found.rest), index.line_text(1));
}

#[test]
fn broken_lines_are_left_alone() {
    let text = "  Assets:A  x 1.00 USD\n  Assets:B 2.00\n";
    let index = LineIndex::new(text);
    // Something stands between prefix and number.
    assert!(extract_line_components(&index, node(2, 10, 0), node(14, 18, 0)).is_none());
    // The number is on another row.
    assert!(extract_line_components(&index, node(2, 10, 0), node(34, 38, 1)).is_none());
    // The number comes first.
    assert!(extract_line_components(&index, node(14, 18, 0), node(2, 10, 0)).is_none());
    // A node cuts a character apart.
    let accented = LineIndex::new("  Assets:\u{e8} 1\n");
    assert!(extract_line_components(&accented, node(2, 10, 0), node(12, 13, 0)).is_none());
    assert!(extract_line_components(&accented, node(2, 11, 0), node(12, 13, 0)).is_some());
}

#[test]
fn a_number_that_runs_past_its_line_has_no_rest() {
    let text = "  A 1\n2\n";
    let index = LineIndex::new(text);
    let found = extract_line_components(&index, node(2, 3, 0), node(4, 7, 0)).unwrap();
    assert_eq!(found.number, "1\n2");
    assert_eq!(found.rest, "");
}

#[test]
fn nodes_past_the_end_are_clamped() {
    let text = "  A 1";
    let index = LineIndex::new(text);
    let found = extract_line_components(&index, node(2, 3, 0), node(4, 90, 0)).unwrap();
    assert_eq!(found.number, "1");
    assert_eq!(found.rest, "");
}

#[test]
fn a_stale_tree_is_reported() {
    let text = "ab\n  \ncd";
    let index = LineIndex::new(text);
    let names = vec!["prefix".to_string(), "number".to_string()];
    // The prefix is said to be on the last line but ends before it starts.
    let stale = vec![vec![
        Capture { index: 0, node: node(0, 3, 2) },
        Capture { index: 1, node: node(4, 5, 2) },
    ]];
    assert_eq!(
        lines_from_matches(&index, &names, &stale).unwrap_err(),
        ExtractionError::StaleTree
    );
}

#[test]
fn the_last_capture_of_a_name_counts() {
    let text = "aa bb 12\n";
    let index = LineIndex::new(text);
    let names = vec!["number".to_string(), "other".to_string(), "prefix".to_string()];
    let matches = vec![
        vec![
            Capture { index: 2, node: node(0, 2, 0) },
            Capture { index: 0, node: node(6, 8, 0) },
            Capture { index: 1, node: node(0, 1, 0) },
            Capture { index: 2, node: node(3, 5, 0) },
            Capture { index: 9, node: node(0, 1, 0) },
        ],
        vec![Capture { index: 2, node: node(0, 2, 0) }],
        vec![],
    ];
    let lines = lines_from_matches(&index, &names, &matches).unwrap();
    assert_eq!(lines.len(), 1);
    assert_eq!(lines[0].prefix, "aa bb");
    assert_eq!(lines[0].number, "12");
    assert_eq!(lines[0].rest, "\n");
}

#[test]
fn widths_are_the_widest_that_occur() {
    let lines = [
        line("  Assets:Cash  ", "100.00"),
        line("  Expenses:Caff\u{e8}\u{3000}\u{a0}\n", "1"),
        line("\t \u{2003}", "-1234.50"),
    ];
    let unset = FormattingConfig { prefix_width: None, num_width: None };
    assert_eq!(
        calculate_format_config(&lines, &unset),
        FormatConfig { final_prefix_width: "  Expenses:Caff\u{e8}".len(), final_num_width: 8 }
    );
    for l in &lines {
        assert!(l.prefix.trim_end().len() <= 17);
        assert!(l.number.len() <= 8);
    }
    assert_eq!(
        calculate_format_config(&[], &unset),
        FormatConfig { final_prefix_width: 0, final_num_width: 0 }
    );
}

#[test]
fn the_user_decides_on_widths() {
    let lines = [line("  Assets:Cash", "100.00")];
    let set = FormattingConfig { prefix_width: Some(4), num_width: Some(60) };
    assert_eq!(
        calculate_format_config(&lines, &set),
        FormatConfig { final_prefix_width: 4, final_num_width: 60 }
    );
    let half = FormattingConfig { prefix_width: Some(0), num_width: None };
    assert_eq!(
        calculate_format_config(&lines, &half),
        FormatConfig { final_prefix_width: 0, final_num_width: 6 }
    );
}
