use beancount_lsp::document::Document;
use beancount_lsp::file_path::FilePath;
use beancount_lsp::paths::PathMap;
use beancount_lsp::protocol::{Location, LocationLink, Position};
use beancount_lsp::providers::definition::{
    definition, definition_with_uris, definitions_in_file, find_definitions,
    find_definitions_with_uris, DefinitionError, DefinitionQueries, Files,
};
use beancount_lsp::server::{LookupError, LspServerStateSnapshot};
use beancount_lsp::syntax::{Capture, Node, Point};
use beancount_lsp::uris::path_of;
use ropey::Rope;
use std::sync::Arc;
use tree_sitter_beancount::tree_sitter;
use tree_sitter_beancount::tree_sitter::{Query, Tree};

fn make_tree(text: &str) -> Tree {
    let mut parser = tree_sitter::Parser::new();
    parser
        .set_language(&tree_sitter_beancount::language())
        .unwrap();
    parser.parse(text, None).unwrap()
}

fn make_doc(text: &str) -> Document {
    Document { content: Rope::from_str(text), version: 1 }
}

fn account_query() -> Query {
    Query::new(&tree_sitter_beancount::language(), "(open account: (account) @account)").unwrap()
}

fn commodity_query() -> Query {
    Query::new(
        &tree_sitter_beancount::language(),
        "(commodity currency: (currency) @currency)",
    )
    .unwrap()
}

fn find_account_open_definitions(
    forest: &PathMap<Arc<Tree>>,
    open_docs: &PathMap<Arc<Document>>,
    node_text: String,
) -> Vec<Location> {
    find_definitions(forest, open_docs, &PathMap::new(), &account_query(), "account", node_text)
}

fn find_commodity_definitions(
    forest: &PathMap<Arc<Tree>>,
    open_docs: &PathMap<Arc<Document>>,
    node_text: String,
) -> Vec<Location> {
    find_definitions(forest, open_docs, &PathMap::new(), &commodity_query(), "currency", node_text)
}

fn files(entries: &[(&str, &str)]) -> (PathMap<Arc<Tree>>, PathMap<Arc<Document>>) {
    let mut forest = PathMap::new();
    let mut open_docs = PathMap::new();
    for (path, text) in entries {
        forest.insert(FilePath::new(path), Arc::new(make_tree(text)));
        open_docs.insert(FilePath::new(path), Arc::new(make_doc(text)));
    }
    (forest, open_docs)
}

const PATH: &str = "/work/test.beancount";
const URI: &str = "file:///work/test.beancount";

fn snapshot(content: &str) -> LspServerStateSnapshot<usize> {
    let (forest, open_docs) = files(&[(PATH, content)]);
    LspServerStateSnapshot {
        forest: Arc::new(forest),
        forest_content: Arc::new(PathMap::new()),
        open_docs: Arc::new(open_docs),
        beancount_data: Arc::new(PathMap::new()),
    }
}

fn define(content: &str, line: u32, character: u32) -> Option<Vec<LocationLink>> {
    let account = account_query();
    let commodity = commodity_query();
    let queries = DefinitionQueries { account: &account, commodity: &commodity };
    definition(&snapshot(content), URI, Position::new(line, character), &queries).unwrap()
}

#[test]
fn test_find_account_open_definitions_single_match() {
    let text = "2024-01-01 open Assets:Cash\n";
    let path = "/tmp/definition_test.bean";
    let (forest, open_docs) = files(&[(path, text)]);

    let locs = find_account_open_definitions(&forest, &open_docs, "Assets:Cash".to_string());

    assert_eq!(locs.len(), 1);
    let loc = &locs[0];
    assert_eq!(loc.range.start.line, 0);
    assert_eq!(loc.range.start.character, 16);
    assert_eq!(loc.range.end.line, 0);
    assert_eq!(loc.range.end.character, 27);

    let expected_uri = url::Url::from_file_path(path).unwrap();
    assert_eq!(loc.uri, expected_uri.as_str());
}

#[test]
fn test_find_account_open_definitions_multiple_files() {
    let text_a = "2024-01-01 open Assets:Cash\n";
    let text_b = "2024-01-02 open Assets:Cash\n";
    let (forest, open_docs) = files(&[
        ("/tmp/definition_test_a.bean", text_a),
        ("/tmp/definition_test_b.bean", text_b),
    ]);

    let locs = find_account_open_definitions(&forest, &open_docs, "Assets:Cash".to_string());

    assert_eq!(locs.len(), 2);
}

#[test]
fn test_find_account_open_definitions_no_match() {
    let text = "2024-01-01 open Assets:Cash\n";
    let (forest, open_docs) = files(&[("/tmp/definition_test_none.bean", text)]);

    let locs = find_account_open_definitions(&forest, &open_docs, "Liabilities:Card".to_string());

    assert!(locs.is_empty());
}

#[test]
fn test_find_commodity_definitions_single_match() {
    let text = "2024-01-01 commodity USD\n\n2024-01-02 * \"Payee\" \"Narration\"\n  Assets:Cash  100.00 USD\n  Expenses:Misc\n";
    let path = "/tmp/definition_test_commodity.bean";
    let (forest, open_docs) = files(&[(path, text)]);

    let locs = find_commodity_definitions(&forest, &open_docs, "USD".to_string());

    // Only the commodity directive matches, not the posting usage
    assert_eq!(locs.len(), 1);
    let loc = &locs[0];
    assert_eq!(loc.range.start.line, 0);
    assert_eq!(loc.range.start.character, 21);
    assert_eq!(loc.range.end.line, 0);
    assert_eq!(loc.range.end.character, 24);

    let expected_uri = url::Url::from_file_path(path).unwrap();
    assert_eq!(loc.uri, expected_uri.as_str());
}

#[test]
fn test_find_commodity_definitions_no_match() {
    let text = "2024-01-01 commodity USD\n";
    let (forest, open_docs) = files(&[("/tmp/definition_test_commodity_none.bean", text)]);

    let locs = find_commodity_definitions(&forest, &open_docs, "EUR".to_string());

    assert!(locs.is_empty());
}

#[test]
fn test_definition_handler_account() {
    let content = r#"
2024-01-01 open Assets:Checking
2024-01-02 * "Test"
  Assets:Checking  100.00 USD
  Expenses:Food   -100.00 USD
"#;

    // Cursor on "Assets:Checking" in the posting
    let links = define(content, 3, 5).expect("links");

    assert_eq!(links.len(), 1);
    let link = &links[0];
    assert_eq!(link.target_uri, URI);
    // Target is the account in the open directive
    assert_eq!(link.target_range.start.line, 1);
    assert_eq!(link.target_range.start.character, 16);
    assert_eq!(link.target_range.end.character, 31);
    assert_eq!(link.target_selection_range, link.target_range);
    // Origin covers the account under the cursor
    let origin = link.origin_selection_range.expect("origin range");
    assert_eq!(origin.start.line, 3);
    assert_eq!(origin.start.character, 2);
    assert_eq!(origin.end.character, 17);
}

#[test]
fn test_definition_handler_commodity() {
    let content = r#"
2024-01-01 commodity USD
2024-01-02 * "Test"
  Assets:Checking  100.00 USD
  Expenses:Food   -100.00 USD
"#;

    // Cursor on "USD" in the posting
    let links = define(content, 3, 27).expect("links");

    assert_eq!(links.len(), 1);
    let link = &links[0];
    assert_eq!(link.target_uri, URI);
    // Target is the currency in the commodity directive
    assert_eq!(link.target_range.start.line, 1);
    assert_eq!(link.target_range.start.character, 21);
    assert_eq!(link.target_range.end.character, 24);
    // Origin covers the currency under the cursor
    let origin = link.origin_selection_range.expect("origin range");
    assert_eq!(origin.start.line, 3);
    assert_eq!(origin.start.character, 26);
    assert_eq!(origin.end.character, 29);
}

#[test]
fn test_definition_handler_commodity_undeclared() {
    let content = r#"
2024-01-01 commodity USD
2024-01-02 * "Test"
  Assets:Checking  100.00 EUR
  Expenses:Food   -100.00 EUR
"#;

    // Cursor on "EUR", which has no commodity directive
    assert!(define(content, 3, 27).is_none());
}

#[test]
fn test_definition_handler_other_node() {
    let content = r#"
2024-01-01 commodity USD
2024-01-02 * "Test"
  Assets:Checking  100.00 USD
"#;

    // Cursor on the narration string: not an account or currency
    assert!(define(content, 2, 14).is_none());
}

#[test]
fn a_document_must_be_known() {
    let account = account_query();
    let commodity = commodity_query();
    let queries = DefinitionQueries { account: &account, commodity: &commodity };
    let at = Position::new(0, 0);
    let mut snapshot = snapshot("2024-01-01 commodity USD\n");

    match definition(&snapshot, "untitled:1", at, &queries) {
        Err(DefinitionError::Lookup(LookupError::NotAFile { uri })) => assert_eq!(uri, "untitled:1"),
        other => panic!("unexpected {other:?}"),
    }
    match definition(&snapshot, "file:///work/other.bean", at, &queries) {
        Err(DefinitionError::Lookup(e)) => {
            assert_eq!(e.message(), "No parsed tree found for file: /work/other.bean");
        }
        other => panic!("unexpected {other:?}"),
    }
    snapshot.open_docs = Arc::new(PathMap::new());
    match definition(&snapshot, URI, at, &queries) {
        Err(DefinitionError::Lookup(e)) => {
            assert_eq!(e.message(), "Document not found for file: /work/test.beancount");
        }
        other => panic!("unexpected {other:?}"),
    }
}

#[test]
fn uris_are_decoded_and_encoded() {
    let (forest, open_docs) = files(&[("/work/my ledger.bean", "2024-01-01 open Assets:Cash\n")]);
    let snapshot: LspServerStateSnapshot<usize> = LspServerStateSnapshot {
        forest: Arc::new(forest),
        forest_content: Arc::new(PathMap::new()),
        open_docs: Arc::new(open_docs),
        beancount_data: Arc::new(PathMap::new()),
    };
    let (_, doc) = snapshot.tree_and_document_for_uri("file:///work/my%20ledger.bean").unwrap();
    assert_eq!(doc.text_string(), "2024-01-01 open Assets:Cash\n");
    let found = find_account_open_definitions(
        &snapshot.forest,
        &snapshot.open_docs,
        "Assets:Cash".to_string(),
    );
    assert_eq!(found[0].uri, "file:///work/my%20ledger.bean");
    let e = snapshot.tree_and_document_for_uri("no uri").unwrap_err();
    assert_eq!(e.message(), "Failed to convert URI to file path: no uri");
}

#[test]
fn a_tree_that_overruns_its_text_is_stale() {
    let account = account_query();
    let commodity = commodity_query();
    let queries = DefinitionQueries { account: &account, commodity: &commodity };
    let mut snapshot = snapshot("2024-01-01 open Assets:Checking\n");
    let mut open_docs = PathMap::new();
    open_docs.insert(FilePath::new(PATH), Arc::new(make_doc("2024-01-01 open Assets")));
    snapshot.open_docs = Arc::new(open_docs);
    let r = definition(&snapshot, URI, Position::new(0, 18), &queries);
    assert!(matches!(r, Err(DefinitionError::StaleTree)));
}

#[test]
fn a_file_without_text_or_uri_has_no_definitions() {
    let text = "2024-01-01 open Assets:Cash\n";
    let (mut forest, open_docs) = files(&[("/work/a.bean", text)]);
    forest.insert(FilePath::new("/work/b.bean"), Arc::new(make_tree(text)));
    let mut forest_content = PathMap::new();
    forest_content.insert(FilePath::new("/work/b.bean"), Arc::new(Rope::from_str(text)));
    let query = account_query();
    let mut uris = PathMap::new();
    uris.insert(FilePath::new("/work/b.bean"), "file:///work/b.bean".to_string());
    let cached = Files { forest: &forest, open_docs: &open_docs, forest_content: &forest_content };
    let found = find_definitions_with_uris(&cached, &query, "account", "Assets:Cash", &uris);
    assert_eq!(found.len(), 1);
    assert_eq!(found[0].uri, "file:///work/b.bean");

    let nothing = PathMap::new();
    let uncached = Files { forest: &forest, open_docs: &open_docs, forest_content: &nothing };
    assert!(find_definitions_with_uris(&uncached, &query, "account", "Assets:Cash", &uris).is_empty());
    // The query has no such capture.
    assert!(find_definitions_with_uris(&cached, &query, "payee", "Assets:Cash", &uris).is_empty());
    // A relative path has no URI.
    let (relative, docs) = files(&[("a.bean", text)]);
    assert!(find_account_open_definitions(&relative, &docs, "Assets:Cash".to_string()).is_empty());
}

#[test]
fn definitions_bear_the_name() {
    let node = |start: usize, end: usize| Node {
        start_byte: start,
        end_byte: end,
        start_position: Point::new(0, start),
    };
    let capture = |index: u32, n: Node| Capture { index, node: n };
    let content = Rope::from_str("\u{e8}x ab ab");
    let matches = vec![
        vec![capture(0, node(4, 6)), capture(1, node(7, 9))],
        vec![capture(1, node(4, 6)), capture(1, node(0, 1))],
        vec![capture(1, node(1, 3))],
        vec![capture(1, node(7, 90))],
        vec![],
    ];
    let found = definitions_in_file(&content, &matches, 1, "ab");
    assert_eq!(found.len(), 2);
    assert_eq!((found[0].start.character, found[0].end.character), (6, 8));
    assert_eq!((found[1].start.character, found[1].end.character), (3, 5));
    assert!(definitions_in_file(&content, &matches, 1, "x").is_empty());
    assert!(definitions_in_file(&content, &[vec![capture(1, node(1, 1))]].to_vec(), 1, "").len() == 1);
}

#[test]
fn a_definition_is_looked_up_by_path() {
    let account = account_query();
    let commodity = commodity_query();
    let queries = DefinitionQueries { account: &account, commodity: &commodity };
    let snapshot = snapshot("2024-01-01 commodity USD\n");
    let mut uris = PathMap::new();
    uris.insert(FilePath::new(PATH), "file:///elsewhere".to_string());
    let links = definition_with_uris(&snapshot, &FilePath::new(PATH), Position::new(0, 22), &queries, &uris)
        .unwrap()
        .unwrap();
    assert_eq!(links[0].target_uri, "file:///elsewhere");
    let none = definition_with_uris(&snapshot, &FilePath::new(PATH), Position::new(0, 22), &queries, &PathMap::new());
    assert!(none.unwrap().is_none());
}

#[test]
fn a_file_is_found_under_any_spelling() {
    let snapshot = snapshot("2024-01-01 commodity USD\n");
    assert!(snapshot.tree_and_document_for_uri("file:///work//./test.beancount").is_ok());
    assert!(snapshot.tree_and_document_for_path(&FilePath::new("/work/test.beancount/")).is_ok());
    // What is missing is told as the URI spells it.
    let e = snapshot.tree_and_document_for_uri("file:///work//x").unwrap_err();
    assert_eq!(e.message(), "No parsed tree found for file: /work//x");
}

#[test]
fn a_path_need_not_be_unicode() {
    let uri = "file:///work/b%fccher.bean";
    let text = "2024-01-01 open Assets:Cash\n";
    let path = path_of(uri).unwrap();
    let mut forest = PathMap::new();
    forest.insert(path.clone(), Arc::new(make_tree(text)));
    let mut open_docs = PathMap::new();
    open_docs.insert(path.clone(), Arc::new(make_doc(text)));
    let snapshot: LspServerStateSnapshot<usize> = LspServerStateSnapshot {
        forest: Arc::new(forest),
        forest_content: Arc::new(PathMap::new()),
        open_docs: Arc::new(open_docs),
        beancount_data: Arc::new(PathMap::new()),
    };
    assert!(snapshot.tree_and_document_for_uri(uri).is_ok());
    let e = snapshot.tree_and_document_for_uri("file:///work/b%fdcher.bean").unwrap_err();
    assert_eq!(e.message(), "No parsed tree found for file: /work/b\u{fffd}cher.bean");
    let found = find_account_open_definitions(
        &snapshot.forest,
        &snapshot.open_docs,
        "Assets:Cash".to_string(),
    );
    assert_eq!(found[0].uri, "file:///work/b%FCcher.bean");
}
