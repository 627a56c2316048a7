//! The core's event vocabulary.
//!
//! One enum, emitted by the core and bridged unchanged to the webview and
//! then to plugins, so a plugin sees exactly what the UI sees.
use vstd::prelude::*;
use crate::error::Diagnostic;
use crate::index::IndexProgress;
use crate::vault::path::VaultPath;

verus! {

#[derive(Debug)]
pub enum CoreEvent {
    VaultOpened { root: String, name: String },
    VaultClosed,
    FileCreated { path: VaultPath },
    FileModified { path: VaultPath },
    FileDeleted { path: VaultPath },
    FileRenamed { from: VaultPath, to: VaultPath },
    IndexProgress { progress: IndexProgress },
    IndexCompleted { files: usize, duration_ms: u64, diagnostics: Vec<Diagnostic> },
    IndexError { message: String },
    ActiveFileChanged { path: Option<VaultPath> },
    WorkspaceChanged,
    /// Something the user should know about that is not an error, such as a
    /// rename having updated forty links.
    Notice { level: NoticeLevel, message: String },
}

#[derive(Debug, Clone, Copy, PartialEq, Eq, Structural)]
pub enum NoticeLevel {
    Info,
    Success,
    Warning,
    Error,
}

/// The channel name of each event.
pub open spec fn event_name(e: CoreEvent) -> Seq<char> {
    match e {
        CoreEvent::VaultOpened { .. } => "vaultOpened"@,
        CoreEvent::VaultClosed => "vaultClosed"@,
        CoreEvent::FileCreated { .. } => "fileCreated"@,
        CoreEvent::FileModified { .. } => "fileModified"@,
        CoreEvent::FileDeleted { .. } => "fileDeleted"@,
        CoreEvent::FileRenamed { .. } => "fileRenamed"@,
        CoreEvent::IndexProgress { .. } => "indexProgress"@,
        CoreEvent::IndexCompleted { .. } => "indexCompleted"@,
        CoreEvent::IndexError { .. } => "indexError"@,
        CoreEvent::ActiveFileChanged { .. } => "activeFileChanged"@,
        CoreEvent::WorkspaceChanged => "workspaceChanged"@,
        CoreEvent::Notice { .. } => "notice"@,
    }
}

impl CoreEvent {
    /// The event's name, used as the channel the UI subscribes to.
    pub fn name(&self) -> (r: &'static str)
        ensures
            r@ == event_name(*self),
    {
        match self {
            CoreEvent::VaultOpened { .. } => "vaultOpened",
            CoreEvent::VaultClosed => "vaultClosed",
            CoreEvent::FileCreated { .. } => "fileCreated",
            CoreEvent::FileModified { .. } => "fileModified",
            CoreEvent::FileDeleted { .. } => "fileDeleted",
            CoreEvent::FileRenamed { .. } => "fileRenamed",
            CoreEvent::IndexProgress { .. } => "indexProgress",
            CoreEvent::IndexCompleted { .. } => "indexCompleted",
            CoreEvent::IndexError { .. } => "indexError",
            CoreEvent::ActiveFileChanged { .. } => "activeFileChanged",
            CoreEvent::WorkspaceChanged => "workspaceChanged",
            CoreEvent::Notice { .. } => "notice",
        }
    }
}

/// Where the core sends events. The application layer supplies one.
pub trait EventSink {
    fn emit(&mut self, event: CoreEvent);
}

/// Discards events, for tests and for headless use.
pub struct NullEventSink;

impl EventSink for NullEventSink {
    fn emit(&mut self, event: CoreEvent) {
    }
}

/// Collects events, in the order they were emitted.
pub struct RecordingEventSink {
    events: Vec<CoreEvent>,
}

impl RecordingEventSink {
    pub closed spec fn recorded(&self) -> Seq<CoreEvent> {
        self.events@
    }

    pub fn new() -> (r: RecordingEventSink)
        ensures
            r.recorded().len() == 0,
    {
        RecordingEventSink { events: Vec::new() }
    }

    /// Everything emitted so far, oldest first.
    pub fn events(&self) -> (r: &Vec<CoreEvent>)
        ensures
            r@ == self.recorded(),
    {
        &self.events
    }

    /// The names of everything emitted so far, oldest first.
    pub fn names(&self) -> (r: Vec<&'static str>)
        ensures
            r@.len() == self.recorded().len(),
            forall|i: int| 0 <= i < r@.len() ==> (#[trigger] r@[i])@ == event_name(self.recorded()[i]),
    {
        let mut out: Vec<&'static str> = Vec::new();
        let mut i: usize = 0;
        while i < self.events.len()
            invariant
                i <= self.events@.len(),
                out@.len() == i,
                forall|k: int| 0 <= k < i ==> (#[trigger] out@[k])@ == event_name(self.events@[k]),
            decreases self.events@.len() - i,
        {
            out.push(self.events[i].name());
            i = i + 1;
        }
        out
    }
}

impl Default for RecordingEventSink {
    fn default() -> (r: RecordingEventSink)
        ensures
            r.recorded().len() == 0,
    {
        RecordingEventSink::new()
    }
}

impl EventSink for RecordingEventSink {
    fn emit(&mut self, event: CoreEvent)
        ensures
            final(self).recorded() == old(self).recorded().push(event),
    {
        self.events.push(event);
    }
}

} // verus!
