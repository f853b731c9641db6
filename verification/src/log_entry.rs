//! Log events: the owned form that enters and leaves the store, and the
//! shared-string form that is kept inside it.

use std::sync::Arc;
use vstd::prelude::*;

verus! {

/// What a log event says, whichever of the two forms holds it.
pub struct Record {
    pub timestamp: i64,
    pub service: Seq<char>,
    pub host: Seq<char>,
    pub message: Seq<char>,
}

/// A single log event.
#[derive(Debug)]
pub struct LogEntry {
    pub timestamp: i64,
    pub service_name: String,
    pub host_id: String,
    pub message: String,
}

/// Shared-string variant used inside the store: copying it copies pointers.
#[derive(Debug)]
pub struct SharedLogEntry {
    pub timestamp: i64,
    pub service_name: Arc<str>,
    pub host_id: Arc<str>,
    pub message: Arc<str>,
}

impl View for LogEntry {
    type V = Record;

    open spec fn view(&self) -> Record {
        Record {
            timestamp: self.timestamp,
            service: self.service_name@,
            host: self.host_id@,
            message: self.message@,
        }
    }
}

impl View for SharedLogEntry {
    type V = Record;

    open spec fn view(&self) -> Record {
        Record {
            timestamp: self.timestamp,
            service: (*self.service_name)@,
            host: (*self.host_id)@,
            message: (*self.message)@,
        }
    }
}

/// What a sequence of owned events says, event by event.
pub open spec fn entry_records(entries: Seq<LogEntry>) -> Seq<Record> {
    entries.map_values(|e: LogEntry| e@)
}

/// What a sequence of shared events says, event by event.
pub open spec fn shared_records(entries: Seq<SharedLogEntry>) -> Seq<Record> {
    entries.map_values(|e: SharedLogEntry| e@)
}

impl Clone for LogEntry {
    fn clone(&self) -> (copy: Self)
        ensures
            copy == *self,
    {
        LogEntry {
            timestamp: self.timestamp,
            service_name: self.service_name.clone(),
            host_id: self.host_id.clone(),
            message: self.message.clone(),
        }
    }
}

impl Clone for SharedLogEntry {
    fn clone(&self) -> (copy: Self)
        ensures
            copy == *self,
    {
        SharedLogEntry {
            timestamp: self.timestamp,
            service_name: self.service_name.clone(),
            host_id: self.host_id.clone(),
            message: self.message.clone(),
        }
    }
}

/// `Arc::<str>::from(String)`: the shared string holds the characters of the
/// owned one.
#[verifier::external_body]
fn share_string(text: String) -> (shared: Arc<str>)
    ensures
        (*shared)@ == text@,
{
    Arc::from(text)
}

impl From<LogEntry> for SharedLogEntry {
    fn from(entry: LogEntry) -> (shared: Self)
        ensures
            shared@ == entry@,
    {
        SharedLogEntry {
            timestamp: entry.timestamp,
            service_name: share_string(entry.service_name),
            host_id: share_string(entry.host_id),
            message: share_string(entry.message),
        }
    }
}

impl vstd::std_specs::convert::FromSpecImpl<LogEntry> for SharedLogEntry {
    open spec fn obeys_from_spec() -> bool {
        false
    }

    open spec fn from_spec(entry: LogEntry) -> Self {
        arbitrary()
    }
}

impl From<&SharedLogEntry> for LogEntry {
    fn from(entry: &SharedLogEntry) -> (owned: Self)
        ensures
            owned@ == entry@,
    {
        LogEntry {
            timestamp: entry.timestamp,
            service_name: (*entry.service_name).to_owned(),
            host_id: (*entry.host_id).to_owned(),
            message: (*entry.message).to_owned(),
        }
    }
}

impl vstd::std_specs::convert::FromSpecImpl<&SharedLogEntry> for LogEntry {
    open spec fn obeys_from_spec() -> bool {
        false
    }

    open spec fn from_spec(entry: &SharedLogEntry) -> Self {
        arbitrary()
    }
}

/// An event says what its fields hold, in either form, and a sequence of events what each
/// of them says, in their order.
pub proof fn events_say_what_their_fields_hold(
    entry: LogEntry,
    shared: SharedLogEntry,
    entries: Seq<LogEntry>,
    many: Seq<SharedLogEntry>,
    i: int,
)
    ensures
        entry@.timestamp == entry.timestamp,
        entry@.service == entry.service_name@,
        entry@.host == entry.host_id@,
        entry@.message == entry.message@,
        shared@.timestamp == shared.timestamp,
        shared@.service == (*shared.service_name)@,
        shared@.host == (*shared.host_id)@,
        shared@.message == (*shared.message)@,
        entry_records(entries).len() == entries.len(),
        0 <= i < entries.len() ==> entry_records(entries)[i] == entries[i]@,
        shared_records(many).len() == many.len(),
        0 <= i < many.len() ==> shared_records(many)[i] == many[i]@,
{
}

} // verus!
