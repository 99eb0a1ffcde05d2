use beancount_lsp::document_store::NO_VERSION;
use beancount_lsp::file_path::FilePath;
use beancount_lsp::progress::ProgressValue;
use beancount_lsp::protocol::{
    Message, Notification, Position, Range, Request, Response, TextDocumentContentChangeEvent,
    TextDocumentContentChangePartial, INVALID_REQUEST,
};
use beancount_lsp::requests::{RequestId, ResponseHandler};
use beancount_lsp::routes::{
    route_notification, route_request, NotificationKind, RequestKind, EXIT,
};
use beancount_lsp::server::{
    is_exit, start_forest, Action, Event, ExtractionJob, ForestFile, ForestStart, JournalRoot,
    LspServerState, ParseJob, ProgressMsg, RequestAction, Task, Work, REGISTER_CAPABILITY,
};
use gen_lsp_types as lsp_types;
use lsp_types::{Notification as _, Request as _};
use ropey::Rope;
use std::sync::Arc;
use tree_sitter_beancount::tree_sitter::{Parser, Tree};

type State = LspServerState<usize>;
type Act = Option<Action<u32, Vec<u8>>>;
type Ev = Event<u32, Vec<u8>, usize>;

const CONTENT: &str = "2024-01-01 open Assets:Checking USD\n";

fn named(path: &str) -> FilePath {
    FilePath::new(path)
}

fn parse(text: &str) -> Arc<Tree> {
    let mut parser = Parser::new();
    parser.set_language(&tree_sitter_beancount::language()).unwrap();
    Arc::new(parser.parse(text, None).unwrap())
}

fn number(n: i32) -> RequestId {
    RequestId::Number(n)
}

fn request(id: RequestId, method: &str) -> Ev {
    Event::Lsp(Message::Request(Request { id, method: method.to_string(), params: 5 }))
}

fn response(id: RequestId) -> Response<u32> {
    Response { id, result: Some(1), error: None }
}

fn parsed(path: &str, version: i32, tree: Option<Arc<Tree>>) -> Ev {
    Event::Task(Task::Parsed { path: named(path), version, tree })
}

fn data(path: &str, version: i32, data: usize) -> Ev {
    Event::Task(Task::SemanticData { path: named(path), version, data: Arc::new(data) })
}

fn parse_job(action: Act) -> ParseJob {
    match action {
        Some(Action::Work(Work::Parse(job))) => job,
        _ => panic!("expected a parse"),
    }
}

fn extraction_job(action: Act) -> ExtractionJob {
    match action {
        Some(Action::Work(Work::Extract(job))) => job,
        _ => panic!("expected an extraction"),
    }
}

fn append(text: &str) -> TextDocumentContentChangeEvent {
    TextDocumentContentChangeEvent::TextDocumentContentChangePartial(
        TextDocumentContentChangePartial {
            range: Range { start: Position::new(99, 0), end: Position::new(99, 0) },
            text: text.to_string(),
        },
    )
}

#[test]
fn requests_go_where_their_method_says() {
    let mut state = State::new();
    let action: Act = state.handle_event(request(number(1), "textDocument/hover"));
    match action {
        Some(Action::Request(RequestAction::Handle(kind, request))) => {
            assert_eq!(kind, RequestKind::Hover);
            assert_eq!(request.id, number(1));
            assert_eq!(request.params, 5);
        }
        _ => panic!("expected a request to handle"),
    }
    let action: Act = state.handle_event(request(number(2), "textDocument/nothing"));
    assert!(matches!(action, Some(Action::Request(RequestAction::Unknown(_)))));
    assert!(!state.shutdown_requested);
}

#[test]
fn a_request_is_answered_once() {
    let mut state = State::new();
    let id = RequestId::Text("one".to_string());
    let _: Act = state.handle_event(request(id.clone(), "textDocument/hover"));
    state.cancel_request(id.clone());
    assert!(state.cancelled.contains(&id));
    let sent: Act = state.handle_event(Event::Task(Task::Response(response(id.clone()))));
    match sent {
        Some(Action::Respond(sent)) => {
            assert_eq!(sent.id, id);
            assert_eq!(sent.result, Some(1));
        }
        _ => panic!("expected a response"),
    }
    assert!(!state.cancelled.contains(&id));
    let again: Act = state.handle_event(Event::Task(Task::Response(response(id))));
    assert!(again.is_none());
    let unknown: Act = state.handle_event(Event::Task(Task::Response(response(number(9)))));
    assert!(unknown.is_none());
}

#[test]
fn after_the_shutdown_requests_are_refused() {
    let mut state = State::new();
    let action: Act = state.handle_event(request(number(1), "shutdown"));
    assert!(matches!(
        action,
        Some(Action::Request(RequestAction::Handle(RequestKind::Shutdown, _)))
    ));
    assert!(state.shutdown_requested);
    let action: Act = state.handle_event(request(number(2), "textDocument/hover"));
    match action {
        Some(Action::Request(RequestAction::Refuse(refusal))) => {
            assert_eq!(refusal.id, number(2));
            assert_eq!(refusal.result, None);
            let error = refusal.error.unwrap();
            assert_eq!(error.code, INVALID_REQUEST);
            assert_eq!(error.code, -32600);
            assert_eq!(error.code, lsp_server::ErrorCode::InvalidRequest as i32);
            assert_eq!(error.message, "shutdown was requested");
        }
        _ => panic!("expected a refusal"),
    }
    // The refused request is no longer pending; the shutdown itself still is.
    assert!(state.respond(response(number(2))).is_none());
    assert!(state.respond(response(number(1))).is_some());
    assert!(state.shutdown_requested);
}

#[test]
fn answers_of_the_client_are_handled_once() {
    let mut state = State::new();
    let first = state.send_request("a", ResponseHandler::Ignore);
    assert_eq!((first.id, first.method.as_str()), (0, "a"));
    let second = state.send_request("b", ResponseHandler::FileWatchers);
    assert_eq!((second.id, second.method.as_str()), (1, "b"));
    let action: Act = state.handle_event(Event::Lsp(Message::Response(response(number(1)))));
    assert!(matches!(action, Some(Action::Response(ResponseHandler::FileWatchers, _))));
    let action: Act = state.handle_event(Event::Lsp(Message::Response(response(number(1)))));
    assert!(action.is_none());
    let action: Act = state.handle_event(Event::Lsp(Message::Response(response(number(0)))));
    assert!(matches!(action, Some(Action::Response(ResponseHandler::Ignore, _))));
    let text = RequestId::Text("0".to_string());
    let action: Act = state.handle_event(Event::Lsp(Message::Response(response(text))));
    assert!(action.is_none());
}

#[test]
fn notifications_go_where_their_method_says() {
    let mut state = State::new();
    let notify = |method: &str| -> Ev {
        Event::Lsp(Message::Notification(Notification { method: method.to_string(), params: 3 }))
    };
    let action: Act = state.handle_event(notify("textDocument/didChange"));
    assert!(matches!(
        action,
        Some(Action::Notification(NotificationKind::DidChange, Notification { params: 3, .. }))
    ));
    let action: Act = state.handle_event(notify("textDocument/didNothing"));
    assert!(action.is_none());
    assert!(is_exit(&notify("exit")));
    assert!(!is_exit(&notify("shutdown")));
    assert!(!is_exit(&request(number(1), "exit")));
}

#[test]
fn routes_bear_the_names_of_the_protocol() {
    let requests = [
        (RequestKind::Shutdown, lsp_types::ShutdownRequest::METHOD.as_str()),
        (RequestKind::Hover, lsp_types::HoverRequest::METHOD.as_str()),
        (RequestKind::Completion, lsp_types::CompletionRequest::METHOD.as_str()),
        (RequestKind::Formatting, lsp_types::DocumentFormattingRequest::METHOD.as_str()),
        (RequestKind::Rename, lsp_types::RenameRequest::METHOD.as_str()),
        (RequestKind::References, lsp_types::ReferencesRequest::METHOD.as_str()),
        (RequestKind::Definition, lsp_types::DefinitionRequest::METHOD.as_str()),
        (RequestKind::SemanticTokens, lsp_types::SemanticTokensRequest::METHOD.as_str()),
        (RequestKind::InlayHint, lsp_types::InlayHintRequest::METHOD.as_str()),
        (RequestKind::FoldingRange, lsp_types::FoldingRangeRequest::METHOD.as_str()),
        (RequestKind::DocumentSymbol, lsp_types::DocumentSymbolRequest::METHOD.as_str()),
        (RequestKind::WorkspaceSymbol, lsp_types::WorkspaceSymbolRequest::METHOD.as_str()),
    ];
    for (kind, method) in requests {
        assert_eq!(kind.method(), method);
        assert_eq!(route_request(method), Some(kind));
    }
    assert_eq!(route_request(""), None);
    let notifications = [
        (NotificationKind::DidOpen, lsp_types::DidOpenTextDocumentNotification::METHOD.as_str()),
        (NotificationKind::DidClose, lsp_types::DidCloseTextDocumentNotification::METHOD.as_str()),
        (NotificationKind::DidSave, lsp_types::DidSaveTextDocumentNotification::METHOD.as_str()),
        (NotificationKind::DidChange, lsp_types::DidChangeTextDocumentNotification::METHOD.as_str()),
        (
            NotificationKind::DidChangeWatchedFiles,
            lsp_types::DidChangeWatchedFilesNotification::METHOD.as_str(),
        ),
        (NotificationKind::Cancel, lsp_types::CancelNotification::METHOD.as_str()),
    ];
    for (kind, method) in notifications {
        assert_eq!(kind.method(), method);
        assert_eq!(route_notification(method), Some(kind));
    }
    assert_eq!(route_notification("exit"), None);
    assert_eq!(EXIT, lsp_types::ExitNotification::METHOD.as_str());
    assert_eq!(REGISTER_CAPABILITY, lsp_types::RegistrationRequest::METHOD.as_str());
    assert_eq!(
        beancount_lsp::progress::CREATE_PROGRESS,
        lsp_types::WorkDoneProgressCreateRequest::METHOD.as_str()
    );
}

#[test]
fn one_parse_per_file_is_in_flight() {
    let mut state = State::new();
    assert!(state.schedule_parse(&named("a")).is_none());
    state.doc_store.open(named("a"), CONTENT, 1);
    let job = state.schedule_parse(&named("a")).unwrap();
    assert_eq!((&job.path, job.text.as_str(), job.version), (&named("a"), CONTENT, 1));
    assert!(state.schedule_parse(&named("a")).is_none());
    assert!(state.parsing.contains(&named("a")));

    // It lands while the document is still at its version: its tree goes in, and
    // its data is wanted.
    let tree = job.run();
    let extraction = extraction_job(state.handle_event(parsed("a", 1, tree.clone())));
    assert!(!state.parsing.contains(&named("a")));
    assert!(state.extracting.contains(&named("a")));
    assert_eq!(extraction.path, named("a"));
    assert_eq!(extraction.version, 1);
    assert_eq!(extraction.content.to_string(), CONTENT);
    assert!(Arc::ptr_eq(&extraction.tree, tree.as_ref().unwrap()));
    assert!(state.doc_store.get_tree(&named("a")).is_some());
    assert!(state.schedule_extraction(&named("a")).is_none());

    let done: Act = state.handle_event(data("a", 1, 77));
    assert!(done.is_none());
    assert_eq!(**state.doc_store.beancount_data.get(&named("a")).unwrap(), 77);
    assert!(!state.extracting.contains(&named("a")));
}

#[test]
fn a_document_that_moved_on_is_parsed_again() {
    let mut state = State::new();
    state.doc_store.open(named("a"), CONTENT, 1);
    let job = state.schedule_parse(&named("a")).unwrap();
    state.doc_store.apply_change(&named("a"), &[append("; more\n")], 2).unwrap();
    let again = parse_job(state.handle_event(parsed("a", job.version, job.run())));
    assert_eq!(again.version, 2);
    assert_eq!(again.text, format!("{CONTENT}; more\n"));
    assert!(state.doc_store.get_tree(&named("a")).is_none());
    assert!(state.parsing.contains(&named("a")));

    // A parse that failed at the current version is not repeated.
    let failed: Act = state.handle_event(parsed("a", 2, None));
    assert!(failed.is_none());
    assert!(!state.parsing.contains(&named("a")));
    // Nor is that of a document that was closed.
    state.doc_store.close(&named("a"));
    let closed: Act = state.handle_event(parsed("a", 1, Some(parse(CONTENT))));
    assert!(closed.is_none());
    assert!(state.doc_store.get_tree(&named("a")).is_none());
}

#[test]
fn late_data_is_rebuilt() {
    let mut state = State::new();
    state.doc_store.open(named("a"), CONTENT, 1);
    assert!(state.doc_store.install_tree(&named("a"), parse(CONTENT), 1));
    let job = state.schedule_extraction(&named("a")).unwrap();
    state.doc_store.apply_change(&named("a"), &[append("; more\n")], 2).unwrap();
    let again = extraction_job(state.handle_event(data("a", job.version, 1)));
    assert_eq!(again.version, 2);
    assert!(!state.doc_store.beancount_data.contains_key(&named("a")));
    assert!(state.extracting.contains(&named("a")));
    let gone: Act = state.handle_event(data("b", 1, 1));
    assert!(gone.is_none());
}

#[test]
fn missing_data_is_scheduled_for_every_file() {
    let mut state = State::new();
    for path in ["a", "b", "c"] {
        state.doc_store.insert_parsed(named(path), (*parse(CONTENT)).clone(), CONTENT);
    }
    state.doc_store.install_beancount_data(&named("b"), Arc::new(1), NO_VERSION);
    assert!(state.schedule_extraction(&named("c")).is_some());
    let jobs = state.schedule_missing_extractions();
    assert_eq!(jobs.len(), 1);
    assert_eq!(jobs[0].path, named("a"));
    assert_eq!(jobs[0].version, NO_VERSION);
    assert!(state.extracting.contains(&named("a")));
    assert!(!state.extracting.contains(&named("b")));
    assert!(state.schedule_missing_extractions().is_empty());
}

#[test]
fn the_forest_does_not_overwrite_open_documents() {
    let file = |path: &str| ForestFile {
        path: named(path),
        tree: parse(CONTENT),
        data: Arc::new(4usize),
        content: Arc::new(Rope::from_str(CONTENT)),
    };
    let mut state = State::new();
    state.doc_store.open(named("open"), "edited", 3);
    let init = |path: &str, done: usize| -> Ev {
        Event::Task(Task::Progress(ProgressMsg::ForestInit {
            total: 2,
            done,
            data: Some(file(path)),
        }))
    };
    let action: Act = state.handle_event(init("open", 1));
    match action {
        Some(Action::Progress(messages)) => {
            assert!(messages.create.is_none());
            assert_eq!(messages.notification.token, "beancount/generating forest");
            assert!(matches!(
                messages.notification.value,
                ProgressValue::Report { message: Some(ref m), fraction: Some((1, 2)) } if m == "1/2"
            ));
        }
        _ => panic!("expected progress"),
    }
    assert!(state.doc_store.get_tree(&named("open")).is_none());
    let action: Act = state.handle_event(init("closed", 2));
    assert!(matches!(
        action,
        Some(Action::Progress(ref m)) if matches!(m.notification.value, ProgressValue::End { .. })
    ));
    assert!(state.doc_store.get_tree(&named("closed")).is_some());
    assert_eq!(state.doc_store.get_content(&named("closed")).unwrap(), CONTENT);
    assert!(state.doc_store.beancount_data.contains_key(&named("closed")));
}

#[test]
fn each_check_has_a_token_of_its_own() {
    let mut state = State::new();
    let check = |done: usize, run_id: u64| -> Ev {
        Event::Task(Task::Progress(ProgressMsg::BeanCheck {
            total: 12,
            done,
            checker_name: "bean-check".to_string(),
            run_id,
        }))
    };
    let action: Act = state.handle_event(check(0, 41));
    match action {
        Some(Action::Progress(messages)) => {
            let create = messages.create.unwrap();
            assert_eq!(create.token, "beancount/bean check (bean-check)/41");
            assert_eq!(create.request.id, 0);
            assert!(matches!(
                messages.notification.value,
                ProgressValue::Begin { ref title, message: Some(ref m), fraction: Some((0, 12)) }
                    if title == "bean check (bean-check)" && m == "0/12"
            ));
        }
        _ => panic!("expected progress"),
    }
    let action: Act = state.handle_event(check(12, 41));
    assert!(matches!(action, Some(Action::Progress(ref m)) if m.create.is_none()));
}

#[test]
fn diagnostics_pass_through() {
    let mut state = State::new();
    let action: Act = state.handle_event(Event::Task(Task::Diagnostics(vec![1, 2])));
    assert!(matches!(action, Some(Action::PublishDiagnostics(ref d)) if *d == vec![1, 2]));
}

#[test]
fn the_start_up_is_announced() {
    let mut state = State::new();
    let watchers = state.register_file_watchers();
    assert_eq!(watchers.request.id, 0);
    assert_eq!(watchers.request.method, REGISTER_CAPABILITY);
    assert_eq!(watchers.id, "beancount-file-watcher");
    assert_eq!(watchers.method, "workspace/didChangeWatchedFiles");
    assert_eq!(watchers.glob_pattern, "**/*.{bean,beancount,include}");
    assert!(watchers.create && watchers.change && watchers.delete);

    assert!(state.ensure_checker(true).is_none());
    let begin = state.ensure_checker(false).unwrap();
    assert_eq!(begin.create.unwrap().request.id, 1);
    assert_eq!(begin.notification.token, "beancount/checker auto");
    assert!(matches!(
        begin.notification.value,
        ProgressValue::Begin { message: Some(ref m), fraction: None, .. }
            if m == "discovering available checkers"
    ));
    let found = state.checker_found(Some("bean-check"));
    assert!(matches!(
        found.notification.value,
        ProgressValue::End { message: Some(ref m) } if m == "using bean-check"
    ));
    let none = state.checker_found(None);
    assert!(matches!(
        none.notification.value,
        ProgressValue::End { message: Some(ref m) } if m == "no checker available"
    ));
}

#[test]
fn the_forest_starts_where_the_journal_is() {
    assert!(matches!(start_forest(JournalRoot::Unset), ForestStart::Skip));
    assert!(matches!(
        start_forest(JournalRoot::Missing { path: "/x/y".to_string() }),
        ForestStart::ShowError { ref message } if message == "Journal root does not exist: /x/y"
    ));
    assert!(matches!(
        start_forest(JournalRoot::Present { path: "/x/y".to_string() }),
        ForestStart::Load { ref path } if path == "/x/y"
    ));
}

#[test]
fn a_snapshot_stays_as_it_was() {
    let mut state = State::new();
    state.doc_store.open(named("a"), CONTENT, 1);
    let snapshot = state.snapshot();
    state.doc_store.apply_change(&named("a"), &[append("; more\n")], 2).unwrap();
    state.doc_store.open(named("b"), CONTENT, 1);
    assert_eq!(snapshot.open_docs.get(&named("a")).unwrap().text_string(), CONTENT);
    assert!(!snapshot.open_docs.contains_key(&named("b")));
}

#[test]
fn only_a_start_takes_a_number() {
    let report = |done: usize| ProgressMsg::ForestInit { total: 2, done, data: None };
    assert!(report(0).begins());
    assert!(!report(1).begins());
    assert!(!report(2).begins());
    let mut state = State::new();
    for done in 0..3 {
        let messages = state.handle_progress_task(report(done));
        assert_eq!(messages.create.is_some(), done == 0);
        assert_eq!(messages.notification.token, "beancount/generating forest");
        assert_eq!(state.next_request, 1);
    }
}
