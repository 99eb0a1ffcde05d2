use beancount_lsp::protocol::{
    Position, Range, TextDocumentContentChangeEvent, TextDocumentContentChangePartial,
    TextDocumentContentChangeWholeDocument,
};
use beancount_lsp::syntax::{Node, ParseBudget, Point, PARSE_BUDGET};
use beancount_lsp::treesitter_utils::{
    byte_to_lsp_position, byte_to_tree_sitter_point, lsp_position_to_core,
    lsp_position_to_tree_sitter_point, lsp_position_to_tree_sitter_point_range,
    lsp_textdocchange_to_ts_inputedit, parse_beancount, parse_with_budget, settle_parse,
    text_for_tree_sitter_node,
    tree_depth_exceeds, tree_sitter_node_to_lsp_range, usable_tree, LineIndex, MAX_TREE_DEPTH,
};
use ropey::Rope;
use std::ops::ControlFlow;
use tree_sitter_beancount::tree_sitter;

fn partial(start: (u32, u32), end: (u32, u32), text: &str) -> TextDocumentContentChangeEvent {
    TextDocumentContentChangeEvent::TextDocumentContentChangePartial(
        TextDocumentContentChangePartial {
            range: Range {
                start: Position::new(start.0, start.1),
                end: Position::new(end.0, end.1),
            },
            text: text.to_string(),
        },
    )
}

fn whole(text: &str) -> TextDocumentContentChangeEvent {
    TextDocumentContentChangeEvent::TextDocumentContentChangeWholeDocument(
        TextDocumentContentChangeWholeDocument {
            text: text.to_string(),
        },
    )
}

fn parse(text: &str) -> tree_sitter::Tree {
    let mut parser = tree_sitter::Parser::new();
    parser
        .set_language(&tree_sitter_beancount::language())
        .unwrap();
    parser.parse(text, None).unwrap()
}

fn node_of(node: tree_sitter::Node) -> Node {
    let start = node.start_position();
    Node {
        start_byte: node.start_byte(),
        end_byte: node.end_byte(),
        start_position: Point::new(start.row, start.column),
    }
}

fn depth_of(node: tree_sitter::Node) -> usize {
    let mut deepest = 0;
    for i in 0..node.child_count() {
        deepest = deepest.max(1 + depth_of(node.child(i as u32).unwrap()));
    }
    deepest
}

#[test]
fn test_lsp_textdocchange_simple_insertion() {
    let source = Rope::from("Hello World");
    let change = partial((0, 5), (0, 5), " Beautiful");

    let edit = lsp_textdocchange_to_ts_inputedit(&source, &change).unwrap();
    assert_eq!(edit.start_byte, 5);
    assert_eq!(edit.old_end_byte, 5);
    assert_eq!(edit.new_end_byte, 15); // Added 10 bytes
    assert_eq!(edit.start_position, Point::new(0, 5));
    assert_eq!(edit.old_end_position, Point::new(0, 5));
}

#[test]
fn test_lsp_textdocchange_simple_deletion() {
    let source = Rope::from("Hello World");
    let change = partial((0, 0), (0, 6), "");

    let edit = lsp_textdocchange_to_ts_inputedit(&source, &change).unwrap();
    assert_eq!(edit.start_byte, 0);
    assert_eq!(edit.old_end_byte, 6);
    assert_eq!(edit.new_end_byte, 0);
    assert_eq!(edit.start_position, Point::new(0, 0));
    assert_eq!(edit.old_end_position, Point::new(0, 6));
    assert_eq!(edit.new_end_position, Point::new(0, 0));
}

#[test]
fn test_lsp_textdocchange_replacement() {
    let source = Rope::from("Hello World");
    let change = partial((0, 6), (0, 11), "Rust");

    let edit = lsp_textdocchange_to_ts_inputedit(&source, &change).unwrap();
    assert_eq!(edit.start_byte, 6);
    assert_eq!(edit.old_end_byte, 11);
    assert_eq!(edit.new_end_byte, 10); // "Rust" is 4 bytes
    assert_eq!(edit.start_position, Point::new(0, 6));
}

#[test]
fn test_lsp_textdocchange_full_document_replacement() {
    let source = Rope::from("Old content");
    let change = whole("New content");

    let edit = lsp_textdocchange_to_ts_inputedit(&source, &change).unwrap();
    assert_eq!(edit.start_byte, 0);
    assert_eq!(edit.old_end_byte, 11);
    assert_eq!(edit.new_end_byte, 11);
    assert_eq!(edit.start_position, Point::new(0, 0));
}

#[test]
fn test_lsp_textdocchange_multiline_insertion() {
    let source = Rope::from("Line 1\nLine 2");
    let change = partial((1, 0), (1, 0), "New line\n");

    let edit = lsp_textdocchange_to_ts_inputedit(&source, &change).unwrap();
    assert_eq!(edit.start_byte, 7); // After "Line 1\n"
    assert_eq!(edit.old_end_byte, 7);
    assert_eq!(edit.new_end_byte, 16); // Added "New line\n" (9 bytes)
}

#[test]
fn test_lsp_textdocchange_with_multibyte_utf8() {
    let source = Rope::from("Hello 世界");
    let change = partial((0, 6), (0, 8), "🌍");

    let edit = lsp_textdocchange_to_ts_inputedit(&source, &change).unwrap();
    assert_eq!(edit.start_byte, 6);
    // 世界 is 6 bytes (3 bytes each), but we're replacing it with 🌍 (4 bytes)
    assert_eq!(edit.old_end_byte, 12);
    assert_eq!(edit.new_end_byte, 10); // 6 + 4
}

#[test]
fn test_lsp_textdocchange_empty_document() {
    let source = Rope::from("");
    let change = partial((0, 0), (0, 0), "New content");

    let edit = lsp_textdocchange_to_ts_inputedit(&source, &change).unwrap();
    assert_eq!(edit.start_byte, 0);
    assert_eq!(edit.old_end_byte, 0);
    assert_eq!(edit.new_end_byte, 11);
    assert_eq!(edit.start_position, Point::new(0, 0));
    assert_eq!(edit.old_end_position, Point::new(0, 0));
}

#[test]
fn test_lsp_textdocchange_to_empty() {
    let source = Rope::from("Content to delete");
    let change = whole("");

    let edit = lsp_textdocchange_to_ts_inputedit(&source, &change).unwrap();
    assert_eq!(edit.start_byte, 0);
    assert_eq!(edit.old_end_byte, 17);
    assert_eq!(edit.new_end_byte, 0);
}

#[test]
fn test_new_end_position_measures_inserted_text_not_old_rope() {
    // Replacing "a\nb" (2 lines) with "xyz" (1 line): the new end is (0, 3).
    let source = Rope::from("a\nb cd");
    let change = partial((0, 0), (1, 1), "xyz");
    let edit = lsp_textdocchange_to_ts_inputedit(&source, &change).unwrap();
    assert_eq!(edit.new_end_position, Point::new(0, 3));

    // Appending "x" at the end of a 1-line doc: new end is (0, len+1).
    let source = Rope::from("hello");
    let change = partial((0, 5), (0, 5), "x");
    let edit = lsp_textdocchange_to_ts_inputedit(&source, &change).unwrap();
    assert_eq!(edit.new_end_position, Point::new(0, 6));

    // Multi-line insert: rows advance by the newline count, column restarts
    // after the last newline.
    let source = Rope::from("hello\n");
    let change = partial((1, 0), (1, 0), "aa\nbbb\ncc");
    let edit = lsp_textdocchange_to_ts_inputedit(&source, &change).unwrap();
    assert_eq!(edit.new_end_position, Point::new(3, 2));
}

#[test]
fn test_line_index_matches_rope_at_every_offset() {
    // The index replaces the rope in the hot providers, so it has to agree with
    // it everywhere, including around multibyte and astral characters, CRLF, and
    // the very end of the document.
    let documents = [
        "",
        "\n",
        "2020-01-01 open Assets:Cash EUR\n",
        "2020-01-01 open Assets:Caffè EUR\n  ; é comment\n",
        "2024-01-02 * \"Café ☕\" \"日本語 🎉\"\r\n  Expenses:Caffè  2.50 EUR\r\n",
        "no trailing newline 🎉",
        "a\r\nb\rc\nd",
        "🎉🎉🎉\n🎉\n",
    ];
    for text in documents {
        let rope = Rope::from_str(text);
        let index = LineIndex::new(text);
        for byte in 0..=text.len() {
            if !text.is_char_boundary(byte) {
                continue;
            }
            assert_eq!(
                index.position(byte),
                byte_to_lsp_position(&rope, byte),
                "offset {byte} of {text:?}"
            );
        }
    }
}

#[test]
fn test_line_index_clamps_and_slices() {
    let text = "2020-01-01 open Assets:Caffè EUR\n";
    let index = LineIndex::new(text);
    // Past the end clamps to the document end.
    let last = index.position(text.len());
    assert_eq!(index.position(text.len() + 999), last);
    // Interior of a multibyte character floors to its start.
    let e_start = text.find('è').unwrap();
    assert_eq!(index.position(e_start + 1), index.position(e_start));
}

#[test]
fn test_byte_to_lsp_position_simple() {
    let text = Rope::from("Hello\nWorld");
    let pos = byte_to_lsp_position(&text, 0);
    assert_eq!(pos.line, 0);
    assert_eq!(pos.character, 0);

    let pos = byte_to_lsp_position(&text, 6);
    assert_eq!(pos.line, 1);
    assert_eq!(pos.character, 0);
}

#[test]
fn test_lsp_position_to_core_simple() {
    let source = Rope::from("Hello\nWorld");
    let pos = Position::new(0, 5);
    let core_pos = lsp_position_to_core(&source, pos).unwrap();
    assert_eq!(core_pos.byte, 5);
    assert_eq!(core_pos.point, Point::new(0, 5));
}

#[test]
fn test_lsp_position_to_core_second_line() {
    let source = Rope::from("Hello\nWorld");
    let pos = Position::new(1, 3);
    let core_pos = lsp_position_to_core(&source, pos).unwrap();
    assert_eq!(core_pos.byte, 9); // "Hello\n" is 6 bytes + 3
    assert_eq!(core_pos.point, Point::new(1, 3)); // Point column is byte offset from line start
}

#[test]
fn test_lsp_position_to_core_second_line_with_utf8_in_first_line() {
    // First line contains multibyte UTF-8, which must not affect addressing on the next line.
    let source = Rope::from("财财\nABC");

    // On the second line, after "A" (column 1 in UTF-16), byte offset should be 1.
    let pos = Position::new(1, 1);
    let core_pos = lsp_position_to_core(&source, pos).unwrap();
    assert_eq!(core_pos.point, Point::new(1, 1));

    // The absolute byte index should be: bytes("财财\n") + 1.
    let prefix_len = "财财\n".len();
    assert_eq!(core_pos.byte as usize, prefix_len + 1);
}

#[test]
fn test_byte_to_tree_sitter_point_simple() {
    let source = Rope::from("Hello\nWorld\nTest");
    let point = byte_to_tree_sitter_point(&source, 6).unwrap();
    assert_eq!(point, Point::new(1, 0));

    let point = byte_to_tree_sitter_point(&source, 12).unwrap();
    assert_eq!(point, Point::new(2, 0));
}

#[test]
fn test_text_for_tree_sitter_node() {
    let source = Rope::from("2024-01-01 open Assets:Checking");
    let tree = parse(&source.to_string());
    let root = node_of(tree.root_node());

    // Get the text for the entire tree
    let text = text_for_tree_sitter_node(&source, &root);
    assert_eq!(text, "2024-01-01 open Assets:Checking");
}

#[test]
fn test_text_for_tree_sitter_node_with_utf8() {
    let source = Rope::from("2024-01-01 * \"Coffee ☕\"");
    let tree = parse(&source.to_string());
    let root = node_of(tree.root_node());

    let text = text_for_tree_sitter_node(&source, &root);
    assert_eq!(text, "2024-01-01 * \"Coffee ☕\"");
}

#[test]
fn test_lsp_position_out_of_bounds() {
    // Out-of-bounds UTF-16 positions are clamped instead of panicking
    let source = Rope::from("2024-01-01 * \"Test\"\n");
    let total_utf16_len = source.len_utf16_cu();

    // Position beyond document bounds - should be clamped
    let pos = Position::new(0, (total_utf16_len + 100) as u32);
    let result = lsp_position_to_core(&source, pos);

    // Should not panic, should clamp to document end
    assert!(
        result.is_ok(),
        "Should handle out-of-bounds position gracefully"
    );
    let core_pos = result.unwrap();
    assert_eq!(
        core_pos.char as usize,
        source.len_chars(),
        "Should clamp to document end"
    );
}

#[test]
fn test_lsp_textdocchange_out_of_bounds_range() {
    // Text changes with out-of-bounds ranges don't panic
    let source = Rope::from("Short text");
    let total_utf16_len = source.len_utf16_cu();

    // Change with end position beyond document - should be clamped
    let change = partial((0, 0), (0, (total_utf16_len + 50) as u32), "Replacement");

    let result = lsp_textdocchange_to_ts_inputedit(&source, &change);
    assert!(
        result.is_ok(),
        "Should handle out-of-bounds range gracefully"
    );
}

#[test]
fn positions_give_back_their_offsets() {
    let text = "a\u{e8}\u{1f389}b\r\n\u{1f389}\n\ntail";
    let rope = Rope::from_str(text);
    for byte in 0..=text.len() {
        if !text.is_char_boundary(byte) {
            continue;
        }
        let core = lsp_position_to_core(&rope, byte_to_lsp_position(&rope, byte)).unwrap();
        assert_eq!(core.byte as usize, byte);
        assert_eq!(core.point, byte_to_tree_sitter_point(&rope, byte).unwrap());
    }
}

#[test]
fn positions_past_the_end_degrade_to_the_end() {
    let rope = Rope::from_str("ab\ncd");
    let past_lines = lsp_position_to_core(&rope, Position::new(7, 3)).unwrap();
    assert_eq!(past_lines.char, 5);
    assert_eq!(past_lines.byte, 5);
    assert_eq!(past_lines.code, 5);
    assert_eq!(past_lines.point, Point::new(1, 2));
    let past_column = lsp_position_to_core(&rope, Position::new(0, u32::MAX)).unwrap();
    assert_eq!(past_column.byte, 5);
    assert_eq!(past_column.point, Point::new(1, 2));
    // A column past the end of its line, but not of the document, stays on its row.
    let past_line = lsp_position_to_core(&rope, Position::new(0, 4)).unwrap();
    assert_eq!(past_line.byte, 4);
    assert_eq!(past_line.point, Point::new(0, 4));
    // Where the last line is empty, the end is its start.
    let rope = Rope::from_str("Hello\nWorld\n");
    let past_lines = lsp_position_to_core(&rope, Position::new(99, 7)).unwrap();
    assert_eq!((past_lines.byte, past_lines.point), (12, Point::new(2, 0)));
    let rope = Rope::from_str("Hello\nWorld");
    let past_lines = lsp_position_to_core(&rope, Position::new(99, 7)).unwrap();
    assert_eq!((past_lines.char, past_lines.byte, past_lines.point), (11, 11, Point::new(1, 5)));
    let change = partial((99, 7), (99, 9), "!\n?");
    let edit = lsp_textdocchange_to_ts_inputedit(&rope, &change).unwrap();
    assert_eq!(edit.start_position, Point::new(1, 5));
    assert_eq!(edit.old_end_position, Point::new(1, 5));
    assert_eq!(edit.new_end_position, Point::new(2, 1));
}

#[test]
fn a_position_inside_a_surrogate_pair_falls_to_its_character() {
    let rope = Rope::from_str("x\u{1f389}y");
    let core = lsp_position_to_core(&rope, Position::new(0, 2)).unwrap();
    assert_eq!(core.char, 1);
    assert_eq!(core.byte, 1);
    assert_eq!(core.code, 2);
}

#[test]
fn points_of_a_position_and_its_left_neighbour() {
    let rope = Rope::from_str("a\u{e8}b");
    assert_eq!(
        lsp_position_to_tree_sitter_point(&rope, Position::new(0, 2)),
        Ok(Point::new(0, 3))
    );
    assert_eq!(
        lsp_position_to_tree_sitter_point_range(&rope, Position::new(0, 2)),
        Ok((Point::new(0, 1), Point::new(0, 3)))
    );
    assert_eq!(
        lsp_position_to_tree_sitter_point_range(&rope, Position::new(0, 0)),
        Ok((Point::new(0, 0), Point::new(0, 0)))
    );
}

#[test]
fn edits_describe_changes_exactly() {
    let old = "one\ntw\u{f6}\nthree\n";
    let rope = Rope::from_str(old);
    let change = partial((0, 1), (1, 3), "X\n\u{e9}");
    let edit = lsp_textdocchange_to_ts_inputedit(&rope, &change).unwrap();
    let new = format!("{}{}{}", &old[..edit.start_byte], "X\n\u{e9}", &old[edit.old_end_byte..]);
    assert_eq!(new, "oX\n\u{e9}\nthree\n");
    let new_rope = Rope::from_str(&new);
    assert_eq!(edit.start_position, Point::new(0, 1));
    assert_eq!(edit.old_end_position, byte_to_tree_sitter_point(&rope, edit.old_end_byte).unwrap());
    assert_eq!(edit.new_end_position, byte_to_tree_sitter_point(&new_rope, edit.new_end_byte).unwrap());
    assert_eq!(edit.new_end_position, Point::new(1, 2));
}

#[test]
fn whole_document_edits_end_at_the_end() {
    let rope = Rope::from_str("one\ntwo");
    let edit = lsp_textdocchange_to_ts_inputedit(&rope, &whole("x\ny\n")).unwrap();
    assert_eq!(edit.old_end_byte, 7);
    assert_eq!(edit.old_end_position, Point::new(1, 3));
    assert_eq!(edit.new_end_byte, 4);
    assert_eq!(edit.new_end_position, Point::new(2, 0));
}

#[test]
fn line_index_knows_its_lines() {
    let text = "a\u{e8}\n\nlast";
    let index = LineIndex::new(text);
    assert_eq!(index.text(), text);
    assert_eq!(index.line_count(), 3);
    assert_eq!(index.line_start_byte(0), 0);
    assert_eq!(index.line_start_byte(1), 4);
    assert_eq!(index.line_start_byte(2), 5);
    assert_eq!(index.line_start_byte(99), 5);
    assert_eq!(index.line_end_byte(0), 4);
    assert_eq!(index.line_end_byte(2), 9);
    assert_eq!(index.line_end_byte(99), 9);
    assert_eq!(index.line_end_byte(usize::MAX), 9);
    assert_eq!(index.line_of(0), 0);
    assert_eq!(index.line_of(2), 0);
    assert_eq!(index.line_of(4), 1);
    assert_eq!(index.line_of(5), 2);
    assert_eq!(index.line_of(500), 2);
    assert_eq!(index.floor_boundary(2), 1);
    assert_eq!(index.floor_boundary(3), 3);
    assert_eq!(index.floor_boundary(500), 9);
    assert_eq!(index.line_text(0), "a\u{e8}\n");
    assert_eq!(index.line_text(1), "\n");
    assert_eq!(index.line_text(2), "last");
    assert_eq!(index.line_text(3), "last");
}

#[test]
fn lines_make_up_the_text() {
    for text in ["", "\n", "a", "a\nb", "a\nb\n", "\u{1f389}\r\n\rx\n\n"] {
        let index = LineIndex::new(text);
        let mut joined = String::new();
        for line in 0..index.line_count() {
            joined.push_str(index.line_text(line));
        }
        assert_eq!(joined, text);
    }
}

#[test]
fn line_index_slices_nodes() {
    let text = "a\u{e8}b\ncd";
    let index = LineIndex::new(text);
    // Both ends fall to the start of the character that they are in.
    let node = Node { start_byte: 2, end_byte: 4, start_position: Point::new(0, 2) };
    assert_eq!(index.slice(&node), "\u{e8}b");
    let inner = Node { start_byte: 2, end_byte: 3, start_position: Point::new(0, 2) };
    assert_eq!(index.slice(&inner), "\u{e8}");
    let inverted = Node { start_byte: 4, end_byte: 1, start_position: Point::new(0, 4) };
    assert_eq!(index.slice(&inverted), "");
    assert_eq!(
        index.range(&inner),
        Range { start: Position::new(0, 1), end: Position::new(0, 2) }
    );
}

#[test]
fn nodes_become_ranges() {
    let rope = Rope::from_str("a\u{1f389}\nbc");
    let node = Node { start_byte: 1, end_byte: 7, start_position: Point::new(0, 1) };
    assert_eq!(
        tree_sitter_node_to_lsp_range(&rope, &node),
        Range { start: Position::new(0, 1), end: Position::new(1, 1) }
    );
    assert_eq!(text_for_tree_sitter_node(&rope, &node), "\u{1f389}\nb");
}

#[test]
fn tree_depth_is_measured_exactly() {
    let texts = [
        "",
        "2024-01-01 open Assets:Cash\n",
        "2024-01-02 * \"Payee\" \"Text\"\n  Assets:Cash  (1 + (2 * 3)) USD\n  Expenses:Misc\n",
        "broken ((( line\n",
    ];
    for text in texts {
        let tree = parse(text);
        let depth = depth_of(tree.root_node());
        for limit in 0..depth + 3 {
            assert_eq!(tree_depth_exceeds(&tree, limit), depth > limit, "{text:?} {limit}");
        }
        assert!(!tree_depth_exceeds(&tree, usize::MAX));
    }
}

#[test]
fn deep_trees_are_not_usable() {
    let expression = vec!["1"; 2 * MAX_TREE_DEPTH].join("+");
    let text = format!("2024-01-02 * \"x\"\n  Assets:Cash  {expression} USD\n");
    let tree = parse(&text);
    assert!(tree_depth_exceeds(&tree, MAX_TREE_DEPTH));
    assert!(usable_tree(Some(tree)).is_none());
    assert!(usable_tree(Some(parse("2024-01-01 open Assets:Cash\n"))).is_some());
    assert!(usable_tree(None).is_none());
}

#[test]
fn documents_parse_from_scratch() {
    let text = "2024-01-01 open Assets:Cash\n";
    let tree = parse_beancount(text).unwrap();
    assert_eq!(tree.root_node().to_sexp(), parse(text).root_node().to_sexp());
}

#[test]
fn a_parse_budget_runs_out() {
    let mut budget = ParseBudget::start();
    assert!(!budget.cancelled());
    assert_eq!(budget.spend(0), ControlFlow::Continue(()));
    assert_eq!(budget.spend(PARSE_BUDGET - 1), ControlFlow::Continue(()));
    assert!(!budget.cancelled());
    assert_eq!(budget.spend(PARSE_BUDGET), ControlFlow::Break(()));
    assert!(budget.cancelled());
    assert_eq!(budget.spend(0), ControlFlow::Continue(()));
    assert!(budget.cancelled());
    let mut fresh = ParseBudget::start();
    assert_eq!(fresh.tick(), ControlFlow::Continue(()));
}

#[test]
fn a_cancelled_parse_yields_no_tree() {
    let text = "2024-01-01 open Assets:Cash\n";
    let mut parser = tree_sitter::Parser::new();
    parser.set_language(&tree_sitter_beancount::language()).unwrap();
    assert!(settle_parse(&mut parser, Some(parse(text)), true).is_none());
    assert!(settle_parse(&mut parser, Some(parse(text)), false).is_some());
    assert!(settle_parse(&mut parser, None, false).is_none());
    // The parser is still good for a parse, from scratch or from an older tree.
    let tree = parse_with_budget(&mut parser, text, None).unwrap();
    let again = parse_with_budget(&mut parser, text, Some(&tree)).unwrap();
    assert_eq!(again.root_node().to_sexp(), parse(text).root_node().to_sexp());
}

#[test]
fn every_point_lies_at_its_offset() {
    let text = "a\u{e8}\n\n\u{1f389}b\nend";
    let rope = Rope::from_str(text);
    for line in 0..7 {
        for character in 0..15 {
            let core = lsp_position_to_core(&rope, Position::new(line, character)).unwrap();
            let row_start = rope.line_to_byte(core.point.row);
            assert!(core.point.row < rope.len_lines());
            assert_eq!(row_start + core.point.column, core.byte as usize);
        }
    }
}
