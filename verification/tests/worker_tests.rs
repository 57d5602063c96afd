use tracing_gui::store::LogsInner;
use tracing_gui::worker::{ingest_step, Mailbox, ProcessorTask, StepOutcome};

#[test]
fn mailbox_last_writer_wins() {
    let mut mb = Mailbox::new();
    assert!(!mb.is_occupied());
    mb.post(ProcessorTask::OpenLogs("a.json".to_owned()));
    mb.post(ProcessorTask::OpenLogs("b.json".to_owned()));
    assert!(mb.is_occupied());
    match mb.take() {
        Some(ProcessorTask::OpenLogs(path)) => assert_eq!(path, "b.json"),
        other => panic!("expected the superseding open task, got {:?}", other),
    }
    assert!(!mb.is_occupied());
    assert!(mb.take().is_none());
}

#[test]
fn blank_and_malformed_lines_are_skipped() {
    let mut store = LogsInner::new();
    let mut seen: u64 = 0;
    assert_eq!(
        ingest_step(&mut store, &mut seen, "   ", false),
        StepOutcome::Continue
    );
    assert_eq!(
        ingest_step(&mut store, &mut seen, "{oops", false),
        StepOutcome::Continue
    );
    assert_eq!(
        ingest_step(
            &mut store,
            &mut seen,
            r#"  {"timestamp":"t","level":"INFO","fields":{"message":"m"},"target":"a"}  "#,
            false
        ),
        StepOutcome::Continue
    );
    assert_eq!(seen, 3);
    assert_eq!(store.messages.len(), 1);
}

#[test]
fn cancellation_checkpoint() {
    let mut store = LogsInner::new();
    let mut seen: u64 = 0;
    let mut cancelled_at: Option<u64> = None;
    for lineno in 1..=2000u64 {
        // a superseding task lands in the mailbox after line 500
        let occupied = lineno > 500;
        let line = format!(
            r#"{{"timestamp":"t","level":"INFO","fields":{{"message":"m{}"}},"target":"a"}}"#,
            lineno
        );
        match ingest_step(&mut store, &mut seen, &line, occupied) {
            StepOutcome::Continue => {}
            StepOutcome::Cancelled => {
                cancelled_at = Some(lineno);
                break;
            }
        }
    }
    // cancellation lands at the first checkpoint at or after the post:
    // within [500, 1500), and the store reflects exactly the lines before it
    let at = cancelled_at.unwrap();
    assert!((500..1500).contains(&at));
    assert_eq!(at, 1001);
    assert_eq!(store.messages.len(), 1000);
}
