use beancount_lsp::progress::{Progress, ProgressValue};
use beancount_lsp::server::LspServerState;

#[test]
fn test_progress_enum_variants() {
    let begin = Progress::Begin;
    let report = Progress::Report;
    let end = Progress::End;

    // Just verify they exist and can be created
    assert_eq!(begin, Progress::Begin);
    assert_eq!(report, Progress::Report);
    assert_eq!(end, Progress::End);
}

#[test]
fn test_progress_enum_equality() {
    assert_eq!(Progress::Begin, Progress::Begin);
    assert_eq!(Progress::Report, Progress::Report);
    assert_eq!(Progress::End, Progress::End);

    assert_ne!(Progress::Begin, Progress::Report);
    assert_ne!(Progress::Report, Progress::End);
    assert_ne!(Progress::Begin, Progress::End);
}

#[test]
fn progress_follows_the_steps() {
    assert_eq!(Progress::of(0, 10), Progress::Begin);
    assert_eq!(Progress::of(0, 0), Progress::Begin);
    assert_eq!(Progress::of(1, 10), Progress::Report);
    assert_eq!(Progress::of(9, 10), Progress::Report);
    assert_eq!(Progress::of(10, 10), Progress::End);
    assert_eq!(Progress::of(11, 10), Progress::End);
}

#[test]
fn the_first_report_announces_its_token() {
    let mut state: LspServerState<u8> = LspServerState::new();
    let begin = state.report_progress("work", Progress::Begin, None, Some((0, 4)), Some("/7"));
    let create = begin.create.unwrap();
    assert_eq!(create.request.id, 0);
    assert_eq!(create.request.method, "window/workDoneProgress/create");
    assert_eq!(create.token, "beancount/work/7");
    assert_eq!(begin.notification.token, "beancount/work/7");
    match begin.notification.value {
        ProgressValue::Begin { title, message, fraction } => {
            assert_eq!(title, "work");
            assert_eq!(message, None);
            assert_eq!(fraction, Some((0, 4)));
        }
        _ => panic!("expected the begin of progress"),
    }

    let report = state.report_progress(
        "work",
        Progress::Report,
        Some("1/4".to_string()),
        Some((1, 4)),
        None,
    );
    assert!(report.create.is_none());
    assert_eq!(report.notification.token, "beancount/work");
    assert!(matches!(
        report.notification.value,
        ProgressValue::Report { message: Some(ref m), fraction: Some((1, 4)) } if m == "1/4"
    ));

    let end = state.report_progress("work", Progress::End, Some("done".to_string()), None, None);
    assert!(end.create.is_none());
    assert!(matches!(
        end.notification.value,
        ProgressValue::End { message: Some(ref m) } if m == "done"
    ));
    assert_eq!(state.next_request, 1);
}
