use ie_core::events::{CoreEvent, EventSink, NoticeLevel, NullEventSink, RecordingEventSink};
use ie_core::vault::path::VaultPath;

#[test]
fn the_recording_sink_keeps_events_in_order() {
    let mut sink = RecordingEventSink::default();
    sink.emit(CoreEvent::VaultClosed);
    sink.emit(CoreEvent::WorkspaceChanged);
    assert_eq!(sink.names(), vec!["vaultClosed", "workspaceChanged"]);
}

#[test]
fn every_event_names_its_channel() {
    let path = VaultPath::parse("a.md").unwrap();
    assert_eq!(CoreEvent::FileCreated { path }.name(), "fileCreated");
    assert_eq!(
        CoreEvent::Notice { level: NoticeLevel::Success, message: "done".into() }.name(),
        "notice"
    );
    assert_eq!(CoreEvent::IndexError { message: "x".into() }.name(), "indexError");
    assert_eq!(CoreEvent::ActiveFileChanged { path: None }.name(), "activeFileChanged");
}

#[test]
fn the_null_sink_discards_and_the_recording_sink_keeps_payloads() {
    let mut null = NullEventSink;
    null.emit(CoreEvent::VaultClosed);
    let mut sink = RecordingEventSink::new();
    assert!(sink.events().is_empty());
    sink.emit(CoreEvent::IndexError { message: "boom".into() });
    match &sink.events()[0] {
        CoreEvent::IndexError { message } => assert_eq!(message, "boom"),
        other => panic!("unexpected {other:?}"),
    }
}
