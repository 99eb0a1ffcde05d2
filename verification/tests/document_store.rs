use beancount_lsp::document::Document;
use beancount_lsp::document_store::{DocumentStore, NO_VERSION};
use beancount_lsp::file_path::FilePath;
use beancount_lsp::paths::PathMap;
use beancount_lsp::protocol::{
    Position, Range, TextDocumentContentChangeEvent, TextDocumentContentChangePartial,
    TextDocumentContentChangeWholeDocument,
};
use ropey::Rope;
use std::sync::Arc;
use tree_sitter_beancount::tree_sitter;
use tree_sitter_beancount::tree_sitter::{Parser, Tree};

/// Semantic data for these tests: how much there was to extract from.
#[derive(Debug, PartialEq)]
struct Data {
    end_byte: usize,
    chars: usize,
}

impl Data {
    fn new(tree: &Tree, content: &Rope) -> Self {
        Data { end_byte: tree.root_node().end_byte(), chars: content.len_chars() }
    }
}

type Store = DocumentStore<Data>;

fn named(path: &str) -> FilePath {
    FilePath::new(path)
}

fn make_parser() -> Parser {
    let mut parser = Parser::new();
    parser
        .set_language(&tree_sitter_beancount::language())
        .expect("Failed to set language");
    parser
}

fn parse(content: &str) -> tree_sitter::Tree {
    make_parser().parse(content, None).expect("Failed to parse")
}

const CONTENT: &str = "2024-01-01 open Assets:Checking USD\n";

/// Open a document and land its parse and semantic data, the way the scheduler
/// does asynchronously in the running server.
fn open_parsed(store: &mut Store, uri: &FilePath, text: &str, version: i32) {
    store.open(uri.clone(), text, version);
    assert!(store.install_tree(uri, Arc::new(parse(text)), version));
    store.ensure_beancount_data(uri, Data::new);
}

fn partial(start: (u32, u32), end: (u32, u32), text: &str) -> TextDocumentContentChangeEvent {
    TextDocumentContentChangeEvent::TextDocumentContentChangePartial(
        TextDocumentContentChangePartial {
            range: Range {
                start: Position::new(start.0, start.1),
                end: Position::new(end.0, end.1),
            },
            text: text.to_string(),
        },
    )
}

fn whole(text: &str) -> TextDocumentContentChangeEvent {
    TextDocumentContentChangeEvent::TextDocumentContentChangeWholeDocument(
        TextDocumentContentChangeWholeDocument {
            text: text.to_string(),
        },
    )
}

#[test]
fn test_open_populates_all_maps() {
    let mut store = Store::new();
    let uri = &named("/test/file.beancount");

    store.open(uri.clone(), CONTENT, 1);

    // Parsing and extraction are scheduled by the caller, off the main loop, so
    // open() alone yields a buffer and nothing else.
    assert!(store.open_docs.contains_key(uri));
    assert_eq!(store.open_docs.get(uri).unwrap().version, 1);
    assert!(store.get_tree(uri).is_none());
    assert!(!store.beancount_data.contains_key(uri));

    // Once the scheduled work lands, the maps are populated.
    assert!(store.install_tree(uri, Arc::new(parse(CONTENT)), 1));
    store.ensure_beancount_data(uri, Data::new);
    assert!(store.get_tree(uri).is_some());
    assert!(store.beancount_data.contains_key(uri));
}

#[test]
fn test_apply_change_keeps_previous_semantic_data() {
    let mut store = Store::new();
    let uri = &named("/test/file.beancount");
    open_parsed(&mut store, uri, CONTENT, 1);

    let change = partial((0, 0), (0, 0), "");
    store.apply_change(uri, &[change], 2).unwrap();

    // Semantic data is deliberately kept (stale) rather than dropped:
    // re-extracting per keystroke blocked the main loop.
    assert!(store.beancount_data.contains_key(uri));
    assert!(store.get_tree(uri).is_some());
    assert!(store.open_docs.get(uri).is_some());
}

#[test]
fn test_apply_change_updates_content_and_version() {
    let mut store = Store::new();
    let uri = &named("/test/file.beancount");
    open_parsed(&mut store, uri, "hello", 1);

    let change = partial((0, 0), (0, 5), "world");
    store.apply_change(uri, &[change], 2).unwrap();

    let doc = store.open_docs.get(uri).unwrap();
    assert_eq!(doc.text_string(), "world");
    assert_eq!(doc.version, 2);
}

#[test]
fn test_apply_change_batch_applies_sequentially() {
    // A batch applies sequentially: a later change may reference lines created by
    // an earlier one in the same batch.
    let mut store = Store::new();
    let uri = &named("/test/file.beancount");
    open_parsed(&mut store, uri, "2024-01-01 open Assets:Cash\n", 1);

    let changes = vec![
        partial((1, 0), (1, 0), "line1\nline2\nline3\n"),
        // line 3 does not exist in the pre-batch document
        partial((3, 0), (3, 5), "edited"),
    ];
    store.apply_change(uri, &changes, 2).unwrap();

    let doc = store.open_docs.get(uri).unwrap();
    assert_eq!(
        doc.text_string(),
        "2024-01-01 open Assets:Cash\nline1\nline2\nedited\n"
    );
}

#[test]
fn test_apply_change_incremental_parse_matches_fresh_parse() {
    // The edits handed to tree-sitter must describe each change exactly: wrong
    // Points corrupt subtree reuse, yielding trees whose structure, and even byte
    // ranges, diverge from a fresh parse of the same text.
    let mut store = Store::new();
    let uri = &named("/test/file.beancount");
    open_parsed(
        &mut store,
        uri,
        "2024-01-02 * \"Café ☕\" \"Espresso\"\n  Expenses:Caffè  2.50 EUR\n  Assets:Bank:Checking\n",
        1,
    );

    // Multi-line insert at EOF, replacement shrinking a span mid-doc, single-char
    // append at the very end.
    let edits = vec![
        partial((3, 0), (3, 0), "2024-02-01 * \"New\"\n  Expenses:Food  1.00 EUR\n"),
        partial((1, 2), (2, 2), "X"),
        partial((3, 24), (3, 24), " ;🎉"),
    ];
    for (i, change) in edits.into_iter().enumerate() {
        store.apply_change(uri, &[change], i as i32 + 2).unwrap();
    }

    let text = store.open_docs.get(uri).unwrap().text_string();
    let incremental = store.get_tree(uri).unwrap();
    let fresh = parse(&text);
    assert!(
        incremental.root_node().end_byte() <= text.len(),
        "incremental tree overruns the document: {} > {}",
        incremental.root_node().end_byte(),
        text.len()
    );
    assert_eq!(
        incremental.root_node().to_sexp(),
        fresh.root_node().to_sexp(),
        "incremental parse diverged from fresh parse of: {text:?}"
    );
}

#[test]
fn test_apply_change_inverted_range_does_not_panic() {
    // Protocol-invalid, but a desynced client can send it; it must not panic the
    // main loop.
    let mut store = Store::new();
    let uri = &named("/test/file.beancount");
    open_parsed(&mut store, uri, "2024-01-01 open Assets:Cash\n", 1);

    let changes = vec![partial((0, 9), (0, 2), "X")];
    store.apply_change(uri, &changes, 2).unwrap();
}

#[test]
fn test_apply_change_out_of_bounds_line_is_clamped() {
    // A position beyond the last line degrades to the document end instead of
    // panicking the main loop.
    let mut store = Store::new();
    let uri = &named("/test/file.beancount");
    open_parsed(&mut store, uri, "2024-01-01 open Assets:Cash\n", 1);

    let changes = vec![partial((99, 7), (99, 9), "; tail")];
    store.apply_change(uri, &changes, 2).unwrap();

    let doc = store.open_docs.get(uri).unwrap();
    assert_eq!(doc.text_string(), "2024-01-01 open Assets:Cash\n; tail");
}

#[test]
fn test_close_transitions_to_non_open_forest_file() {
    let mut store = Store::new();
    let uri = &named("/test/file.beancount");
    open_parsed(&mut store, uri, CONTENT, 1);

    store.close(uri);

    // Removed from open_docs
    assert!(store.open_docs.get(uri).is_none());
    // Kept in forest and beancount_data for cross-file operations
    assert!(store.get_tree(uri).is_some());
    assert!(store.beancount_data.contains_key(uri));
    // Rope transferred to forest_content
    assert!(store.forest_content.contains_key(uri));
    // Parser kept for reuse
    assert!(store.parsers.contains_key(uri));
}

#[test]
fn test_close_keeps_state_without_extracting() {
    // Closing must not rebuild semantic data: that is a full pass over the
    // document on the main loop. Existing data stays and the tree and rope remain
    // available for cross-file work.
    let mut store = Store::new();
    let uri = &named("/test/file.beancount");
    open_parsed(&mut store, uri, CONTENT, 1);
    let before = store.beancount_data.get(uri).unwrap().clone();

    store.close(uri);

    assert!(store.open_docs.get(uri).is_none());
    assert!(store.get_tree(uri).is_some());
    assert!(store.forest_content.contains_key(uri));
    assert!(Arc::ptr_eq(store.beancount_data.get(uri).unwrap(), &before));
}

#[test]
fn test_close_without_data_leaves_it_absent_for_the_scheduler() {
    let mut store = Store::new();
    let uri = &named("/test/file.beancount");
    store.open(uri.clone(), CONTENT, 1);
    assert!(store.install_tree(uri, Arc::new(parse(CONTENT)), 1));

    store.close(uri);

    // No synchronous extraction happened; the rope is cached so the scheduled
    // rebuild can still run.
    assert!(!store.beancount_data.contains_key(uri));
    assert!(store.extraction_inputs(uri).is_some());
}

#[test]
fn test_reopen_after_close_gets_fresh_state() {
    let mut store = Store::new();
    let uri = &named("/test/file.beancount");
    open_parsed(&mut store, uri, CONTENT, 1);
    store.close(uri);

    let new_content = "2024-06-01 open Liabilities:CreditCard USD\n";
    open_parsed(&mut store, uri, new_content, 2);

    let doc = store.open_docs.get(uri).unwrap();
    assert_eq!(doc.version, 2);
    assert!(doc.text_string().contains("Liabilities"));
    // forest_content cleared when re-opened (open_docs takes over)
    assert!(!store.forest_content.contains_key(uri));
}

#[test]
fn test_ensure_beancount_data_lazy_extraction() {
    let mut store = Store::new();
    let uri = &named("/test/file.beancount");
    open_parsed(&mut store, uri, CONTENT, 1);

    // Data absent but tree present: the fallback must rebuild it.
    Arc::make_mut(&mut store.beancount_data).remove(uri);
    assert!(!store.beancount_data.contains_key(uri));

    store.ensure_beancount_data(uri, Data::new);
    assert!(store.beancount_data.contains_key(uri));
}

#[test]
fn test_install_beancount_data_respects_document_version() {
    // Data built off-thread must not overwrite a newer document's data.
    let mut store = Store::new();
    let uri = &named("/test/file.beancount");
    open_parsed(&mut store, uri, CONTENT, 1);
    let (tree, rope, version) = store.extraction_inputs(uri).unwrap();
    assert_eq!(version, 1);
    let fresh = Arc::new(Data::new(&tree, &rope));

    // Same version: installed.
    store.install_beancount_data(uri, fresh.clone(), 1);
    assert!(Arc::ptr_eq(store.beancount_data.get(uri).unwrap(), &fresh));

    // Older version than the document: dropped.
    store.open(uri.clone(), CONTENT, 5);
    assert!(store.install_tree(uri, Arc::new(parse(CONTENT)), 5));
    store.install_beancount_data(uri, fresh.clone(), 1);
    assert!(!store.beancount_data.contains_key(uri));

    // A forest file that is not open carries no version and is accepted.
    let other = &named("/test/included.beancount");
    store.insert_parsed(other.clone(), parse(CONTENT), CONTENT);
    let (tree, rope, version) = store.extraction_inputs(other).unwrap();
    assert_eq!(version, NO_VERSION);
    store.install_beancount_data(other, Arc::new(Data::new(&tree, &rope)), version);
    assert!(store.beancount_data.contains_key(other));
}

#[test]
fn test_ensure_beancount_data_skips_if_present() {
    let mut store = Store::new();
    let uri = &named("/test/file.beancount");
    open_parsed(&mut store, uri, CONTENT, 1);

    let first_ptr = Arc::as_ptr(store.beancount_data.get(uri).unwrap());
    store.ensure_beancount_data(uri, Data::new);
    let second_ptr = Arc::as_ptr(store.beancount_data.get(uri).unwrap());

    assert_eq!(
        first_ptr, second_ptr,
        "should not re-extract if data present"
    );
}

#[test]
fn test_ensure_beancount_data_does_nothing_without_tree() {
    let mut store = Store::new();
    let uri = &named("/test/file.beancount");
    // doc exists but no tree
    Arc::make_mut(&mut store.open_docs).insert(
        uri.clone(),
        Arc::new(Document {
            content: Rope::from_str(CONTENT),
            version: 1,
        }),
    );

    store.ensure_beancount_data(uri, Data::new); // must not panic
    assert!(!store.beancount_data.contains_key(uri));
}

#[test]
fn test_insert_parsed_stores_tree_data_and_rope() {
    let mut store = Store::new();
    let uri = &named("/test/included.beancount");
    let tree = parse(CONTENT);

    store.insert_parsed(uri.clone(), tree, CONTENT);

    assert!(store.get_tree(uri).is_some());
    assert!(store.forest_content.contains_key(uri));
    // not an open doc
    assert!(store.open_docs.get(uri).is_none());
    // Semantic data is scheduled by the caller, not built here.
    assert!(!store.beancount_data.contains_key(uri));
}

#[test]
fn test_insert_tree_and_data() {
    let mut store = Store::new();
    let uri = &named("/test/bg.beancount");
    let tree = Arc::new(parse(CONTENT));
    let rope = Rope::from_str(CONTENT);
    let data = Arc::new(Data::new(&tree, &rope));

    store.insert_tree_and_data(uri.clone(), tree, data, Arc::new(rope));

    assert!(store.get_tree(uri).is_some());
    assert!(store.beancount_data.contains_key(uri));
    assert!(store.forest_content.contains_key(uri));
}

#[test]
fn test_remove_external_clears_all_caches() {
    let mut store = Store::new();
    let uri = &named("/test/ext.beancount");
    let tree = parse(CONTENT);
    store.insert_parsed(uri.clone(), tree, CONTENT);

    store.remove_external(uri);

    assert!(store.get_tree(uri).is_none());
    assert!(!store.beancount_data.contains_key(uri));
}

#[test]
fn test_invalidate_external_clears_tree_and_data() {
    let mut store = Store::new();
    let uri = &named("/test/ext.beancount");
    let tree = parse(CONTENT);
    store.insert_parsed(uri.clone(), tree, CONTENT);

    store.invalidate_external(uri);

    assert!(store.get_tree(uri).is_none());
    assert!(!store.beancount_data.contains_key(uri));
}

/// The paths that the include directives of a text name.
fn include_paths(text: &str, path: &FilePath) -> Vec<FilePath> {
    let directory = path.as_path().parent().unwrap();
    text.lines()
        .filter_map(|line| line.strip_prefix("include \""))
        .filter_map(|rest| rest.strip_suffix('"'))
        .map(|name| FilePath::from_path(directory.join(name)))
        .collect()
}

/// Include directives as a map lists them.
fn listed(includes: &PathMap<Vec<FilePath>>) -> impl Fn(&str, &FilePath) -> Vec<FilePath> + '_ {
    |_: &str, path: &FilePath| includes.get(path).cloned().unwrap_or_default()
}

#[test]
fn test_retain_reachable_prunes_unincluded_files() {
    // Files dropped from the include graph must leave the forest, or they keep
    // feeding completions and diagnostics forever.
    let root = &named("/ledger/main.beancount");
    let kept = &named("/ledger/kept.beancount");
    let ghost = &named("/ledger/ghost.beancount");
    let mut store = Store::new();
    for (path, content) in [
        (root, "include \"kept.beancount\"\n"),
        (kept, "2020-01-01 open Assets:Kept\n"),
        (ghost, "2020-01-01 open Assets:Ghost\n"),
    ] {
        store.insert_parsed(path.clone(), parse(content), content);
    }
    let pruned = store.retain_reachable(root, include_paths);

    assert_eq!(pruned, vec![ghost.clone()]);
    assert!(store.get_tree(ghost).is_none());
    assert!(store.get_tree(kept).is_some());
    assert!(store.get_tree(root).is_some());
}

#[test]
fn test_retain_reachable_keeps_open_docs() {
    // An open buffer stays even when unreachable from the journal.
    let root = &named("/ledger/main.beancount");
    let open_file = &named("/ledger/scratch.beancount");

    let mut store = Store::new();
    let content = "2020-01-01 open Assets:Root\n";
    store.insert_parsed(root.clone(), parse(content), content);
    open_parsed(&mut store, open_file, "2020-01-01 open Assets:Open\n", 1);

    let pruned = store.retain_reachable(root, include_paths);

    assert!(pruned.is_empty());
    assert!(store.get_tree(open_file).is_some());
}

#[test]
fn test_snapshot_maps_clones_all_maps() {
    let mut store = Store::new();
    let uri = &named("/test/file.beancount");
    open_parsed(&mut store, uri, CONTENT, 1);

    let maps = store.snapshot_maps();

    assert!(maps.open_docs.contains_key(uri));
    assert!(maps.forest.contains_key(uri));
    assert!(maps.beancount_data.contains_key(uri));
    // open file: forest_content not populated (open_docs is the source of truth)
    assert!(!maps.forest_content.contains_key(uri));
    // parsers NOT in snapshot
}

#[test]
fn test_snapshot_maps_shares_arc_identity() {
    // Snapshot should share the same Arc allocation (pointer equality), not clone
    // the underlying maps.
    let mut store = Store::new();
    let uri = &named("/test/file.beancount");
    open_parsed(&mut store, uri, CONTENT, 1);

    let maps1 = store.snapshot_maps();
    let maps2 = store.snapshot_maps();

    assert!(
        Arc::ptr_eq(&maps1.forest, &maps2.forest),
        "consecutive snapshots should share forest Arc"
    );
    assert!(
        Arc::ptr_eq(&maps1.beancount_data, &maps2.beancount_data),
        "consecutive snapshots should share beancount_data Arc"
    );
    assert!(
        Arc::ptr_eq(&maps1.open_docs, &maps2.open_docs),
        "consecutive snapshots should share open_docs Arc"
    );
    assert!(
        Arc::ptr_eq(&maps1.forest_content, &maps2.forest_content),
        "consecutive snapshots should share forest_content Arc"
    );
}

#[test]
fn test_mutation_after_snapshot_does_not_alias() {
    // After a mutation, the live snapshot must not reflect the change
    // (copy-on-write: make_mut allocates a new map).
    let mut store = Store::new();
    let uri = &named("/test/file.beancount");
    open_parsed(&mut store, uri, CONTENT, 1);

    let snapshot_before = store.snapshot_maps();

    // Mutate by inserting another key
    let uri2 = &named("/test/file2.beancount");
    open_parsed(&mut store, uri2, CONTENT, 1);

    // snapshot_before should still point to the old allocation
    assert!(
        !Arc::ptr_eq(&snapshot_before.forest, &store.snapshot_maps().forest),
        "snapshot taken before mutation should not alias the new forest"
    );
    // The old snapshot should not contain the new key
    assert!(
        !snapshot_before.forest.contains_key(uri2),
        "old snapshot must not see keys added after snapshot"
    );
    assert!(snapshot_before.forest.contains_key(uri));
    assert_eq!(snapshot_before.open_docs.get(uri).unwrap().text_string(), CONTENT);
}

#[test]
fn a_whole_document_is_replaced_entirely() {
    for old in ["Old content", "Old\ncontent", "Old\n", "", "tail \u{1f389}"] {
        let mut store = Store::new();
        let uri = &named("/test/file.beancount");
        open_parsed(&mut store, uri, old, 1);
        store.apply_change(uri, &[whole(CONTENT)], 2).unwrap();
        assert_eq!(store.get_content(uri).unwrap(), CONTENT);
        let tree = store.get_tree(uri).unwrap();
        assert_eq!(tree.root_node().to_sexp(), parse(CONTENT).root_node().to_sexp());
    }
}

#[test]
fn a_batch_has_the_effect_of_its_parts() {
    let first = || vec![partial((0, 0), (0, 1), "xx\n"), partial((1, 0), (1, 2), "\u{e9}")];
    let second = || vec![partial((0, 2), (1, 1), ""), whole("y"), partial((0, 1), (0, 1), "z")];
    let uri = &named("/test/file.beancount");
    let mut at_once = Store::new();
    at_once.open(uri.clone(), "abc\ndef", 1);
    let mut both = first();
    both.extend(second());
    at_once.apply_change(uri, &both, 2).unwrap();
    let mut in_turn = Store::new();
    in_turn.open(uri.clone(), "abc\ndef", 1);
    in_turn.apply_change(uri, &first(), 2).unwrap();
    assert_eq!(in_turn.get_content(uri).unwrap(), "xx\n\u{e9}\ndef");
    in_turn.apply_change(uri, &second(), 3).unwrap();
    assert_eq!(at_once.get_content(uri), in_turn.get_content(uri));
    assert_eq!(in_turn.get_content(uri).unwrap(), "yz");
}

#[test]
fn an_inverted_range_inserts_at_its_start() {
    let mut store = Store::new();
    store.open(named("a"), "0123456789", 1);
    store.apply_change(&named("a"), &[partial((0, 9), (0, 2), "X")], 2).unwrap();
    assert_eq!(store.get_content(&named("a")).unwrap(), "012345678X9");
}

#[test]
fn an_unknown_document_is_left_alone() {
    let mut store = Store::new();
    assert!(store.apply_change(&named("a"), &[partial((0, 0), (0, 0), "X")], 2).is_ok());
    assert!(store.get_content(&named("a")).is_none());
    assert!(!store.has_open_doc(&named("a")));
    assert!(store.parse_inputs(&named("a")).is_none());
    assert!(store.extraction_inputs(&named("a")).is_none());
}

#[test]
fn without_a_tree_only_the_buffer_changes() {
    let mut store = Store::new();
    store.open(named("a"), "x", 1);
    store.apply_change(&named("a"), &[partial((0, 1), (0, 1), "y")], 2).unwrap();
    assert_eq!(store.parse_inputs(&named("a")), Some(("xy".to_string(), 2)));
    assert!(store.get_tree(&named("a")).is_none());
}

#[test]
fn an_unusable_tree_takes_the_data_with_it() {
    let mut store = Store::new();
    let uri = &named("/test/file.beancount");
    open_parsed(&mut store, uri, CONTENT, 1);
    store.commit_tree(uri, None);
    assert!(store.get_tree(uri).is_none());
    assert!(!store.beancount_data.contains_key(uri));
    open_parsed(&mut store, uri, CONTENT, 2);
    let expression = vec!["1"; 600].join("+");
    let deep = format!("2024-01-02 * \"x\"\n  Assets:Cash  {expression} USD\n");
    store.apply_change(uri, &[whole(&deep)], 3).unwrap();
    assert_eq!(store.get_content(uri).unwrap(), deep);
    assert!(store.get_tree(uri).is_none());
    assert!(!store.beancount_data.contains_key(uri));
}

#[test]
fn a_document_without_its_parser_keeps_its_tree() {
    let mut store = Store::new();
    let uri = &named("/test/file.beancount");
    open_parsed(&mut store, uri, CONTENT, 1);
    store.parsers.remove(uri);
    store.apply_change(uri, &[partial((0, 0), (0, 0), "; ")], 2).unwrap();
    assert!(store.get_tree(uri).is_some());
    assert_eq!(store.get_content(uri).unwrap(), format!("; {CONTENT}"));
}

#[test]
fn closing_keeps_the_text_readable() {
    let mut store = Store::new();
    open_parsed(&mut store, &named("a"), CONTENT, 1);
    store.open(named("b"), "other", 4);
    store.close(&named("a"));
    assert_eq!(store.get_content(&named("a")).unwrap(), CONTENT);
    assert_eq!(store.get_content(&named("b")).unwrap(), "other");
    assert_eq!(store.open_doc_keys(), vec![named("b")]);
    store.close(&named("never opened"));
    assert!(store.get_content(&named("never opened")).is_none());
}

#[test]
fn trees_of_other_versions_are_refused() {
    let mut store = Store::new();
    store.open(named("a"), CONTENT, 3);
    assert!(!store.install_tree(&named("a"), Arc::new(parse(CONTENT)), 2));
    assert!(!store.install_tree(&named("b"), Arc::new(parse(CONTENT)), 3));
    assert!(store.get_tree(&named("a")).is_none());
    assert!(store.install_tree(&named("a"), Arc::new(parse(CONTENT)), 3));
    assert_eq!(store.files_missing_data(), vec![named("a")]);
    store.ensure_beancount_data(&named("a"), Data::new);
    assert!(store.files_missing_data().is_empty());
    let data = store.beancount_data.get(&named("a")).unwrap();
    assert_eq!(**data, Data { end_byte: CONTENT.len(), chars: CONTENT.len() });
}

#[test]
fn pruning_follows_chains_and_cycles() {
    let mut store = Store::new();
    for path in ["root", "a", "b", "c", "lost", "behind-lost"] {
        store.insert_parsed(named(path), parse(CONTENT), CONTENT);
    }
    // A file that is included but whose text is not known leads nowhere.
    store.insert_parsed(named("blank"), parse(CONTENT), CONTENT);
    Arc::make_mut(&mut store.forest_content).remove(&named("blank"));
    let mut includes = PathMap::new();
    includes.insert(named("root"), vec![named("a"), named("missing")]);
    includes.insert(named("a"), vec![named("b"), named("root")]);
    includes.insert(named("b"), vec![named("c"), named("a"), named("blank")]);
    includes.insert(named("lost"), vec![named("behind-lost")]);
    includes.insert(named("blank"), vec![named("lost")]);
    includes.insert(named("missing"), vec![named("lost")]);

    let mut pruned = store.retain_reachable(&named("root"), listed(&includes));
    pruned.sort();

    assert_eq!(pruned, vec![named("behind-lost"), named("lost")]);
    for path in ["root", "a", "b", "c", "blank"] {
        assert!(store.get_tree(&named(path)).is_some());
    }
    assert!(store.get_content(&named("lost")).is_none());
}

#[test]
fn buffers_and_trees_are_edited_in_step() {
    let mut store = Store::new();
    let uri = &named("/test/file.beancount");
    open_parsed(&mut store, uri, CONTENT, 1);
    let edits = store
        .change_buffer(uri, &[partial((0, 0), (0, 0), "; x\n"), partial((1, 0), (1, 4), "")], 2)
        .unwrap();
    assert_eq!(edits.len(), 2);
    assert_eq!((edits[0].start_byte, edits[0].old_end_byte, edits[0].new_end_byte), (0, 0, 4));
    assert_eq!((edits[1].start_byte, edits[1].old_end_byte, edits[1].new_end_byte), (4, 8, 4));
    assert_eq!(store.parse_inputs(uri), Some((format!("; x\n{}", &CONTENT[4..]), 2)));
    let end = store.get_tree(uri).unwrap().root_node().end_byte();
    let edited = store.edited_tree(uri, &edits).unwrap();
    assert_eq!(edited.root_node().end_byte(), end);
    assert_eq!(edited.root_node().end_position().row, 2);
    let first = store.edited_tree(uri, &edits[..1].to_vec()).unwrap();
    assert_eq!(first.root_node().end_byte(), end + 4);
    assert!(store.edited_tree(&named("elsewhere"), &edits).is_none());
}

#[test]
fn pruning_starts_from_the_root_alone() {
    let mut store = Store::new();
    for path in ["root", "helper"] {
        store.insert_parsed(named(path), parse(CONTENT), CONTENT);
    }
    open_parsed(&mut store, &named("scratch"), CONTENT, 1);
    let mut includes = PathMap::new();
    includes.insert(named("scratch"), vec![named("helper")]);

    let pruned = store.retain_reachable(&named("root"), listed(&includes));

    // What only an open document outside the journal includes is dropped.
    assert_eq!(pruned, vec![named("helper")]);
    assert!(store.get_tree(&named("helper")).is_none());
    assert!(store.get_tree(&named("scratch")).is_some());
    assert!(store.get_tree(&named("root")).is_some());
}

#[test]
fn spellings_of_one_path_are_one_file() {
    let mut store = Store::new();
    store.open(named("/a//b"), CONTENT, 1);
    assert!(store.has_open_doc(&named("/a/b")));
    assert!(store.has_open_doc(&named("/a/./b/")));
    assert!(!store.has_open_doc(&named("a/b")));
    store.open(named("/a/b"), "other", 2);
    assert_eq!(store.get_content(&named("/a//b")).unwrap(), "other");
    store.close(&named("//a/b"));
    assert!(store.open_doc_keys().is_empty());
}

#[test]
fn pruning_reads_the_buffer_before_the_cache() {
    let root = &named("/ledger/main.beancount");
    let old = &named("/ledger/old.beancount");
    let new = &named("/ledger/new.beancount");
    let mut store = Store::new();
    store.insert_parsed(root.clone(), parse(CONTENT), "include \"old.beancount\"\n");
    store.insert_parsed(old.clone(), parse(CONTENT), CONTENT);
    store.insert_parsed(new.clone(), parse(CONTENT), "include \".//main.beancount\"\n");
    open_parsed(&mut store, root, "include \"./new.beancount\"\n", 1);

    assert_eq!(store.retain_reachable(root, include_paths), vec![old.clone()]);
    assert!(store.get_tree(new).is_some());
    assert!(store.retain_reachable(root, include_paths).is_empty());
}
