//! Record model: worker registrations and mirror sync statuses.
use vstd::prelude::*;

verus! {

/// A point in time, as seconds since the Unix epoch (UTC) plus nanoseconds.
/// During a leap second `nanos` runs on past one second. Which values name
/// an instant is decided where they are written (see `codec::time_fits`).
#[derive(Clone, Copy, Debug, PartialEq, Eq, Structural)]
pub struct Timestamp {
    pub secs: i64,
    pub nanos: u32,
}

/// Lifecycle state of a mirror job on a worker.
#[derive(Clone, Copy, Debug, PartialEq, Eq, Structural)]
pub enum SyncStatus {
    Failed,
    Success,
    Syncing,
    PreSyncing,
    Paused,
    Disabled,
}

/// One registered worker node; `id` is also its storage key.
#[derive(Clone, Debug, PartialEq, Eq)]
pub struct WorkerStatus {
    pub id: String,
    pub url: String,
    pub token: String,
    pub last_online: Timestamp,
    pub last_register: Timestamp,
}

/// Mathematical value of a [`WorkerStatus`].
pub struct WorkerStatusView {
    pub id: Seq<char>,
    pub url: Seq<char>,
    pub token: Seq<char>,
    pub last_online: Timestamp,
    pub last_register: Timestamp,
}

impl View for WorkerStatus {
    type V = WorkerStatusView;

    open spec fn view(&self) -> WorkerStatusView {
        WorkerStatusView {
            id: self.id@,
            url: self.url@,
            token: self.token@,
            last_online: self.last_online,
            last_register: self.last_register,
        }
    }
}

/// Sync status of one mirror as served by one worker.
#[derive(Clone, Debug, PartialEq, Eq)]
pub struct MirrorStatus {
    pub name: String,
    pub worker: String,
    pub upstream: String,
    pub size: String,
    /// Last error text; empty when the last sync had no error.
    pub error_msg: String,
    pub last_update: Timestamp,
    pub last_started: Timestamp,
    pub last_ended: Timestamp,
    pub next_scheduled: Timestamp,
    pub status: SyncStatus,
    pub is_master: bool,
}

/// Mathematical value of a [`MirrorStatus`].
pub struct MirrorStatusView {
    pub name: Seq<char>,
    pub worker: Seq<char>,
    pub upstream: Seq<char>,
    pub size: Seq<char>,
    pub error_msg: Seq<char>,
    pub last_update: Timestamp,
    pub last_started: Timestamp,
    pub last_ended: Timestamp,
    pub next_scheduled: Timestamp,
    pub status: SyncStatus,
    pub is_master: bool,
}

impl View for MirrorStatus {
    type V = MirrorStatusView;

    open spec fn view(&self) -> MirrorStatusView {
        MirrorStatusView {
            name: self.name@,
            worker: self.worker@,
            upstream: self.upstream@,
            size: self.size@,
            error_msg: self.error_msg@,
            last_update: self.last_update,
            last_started: self.last_started,
            last_ended: self.last_ended,
            next_scheduled: self.next_scheduled,
            status: self.status,
            is_master: self.is_master,
        }
    }
}

/// Whether the flush sweep removes a status: disabled, or with no mirror name.
pub open spec fn is_stale(m: MirrorStatusView) -> bool {
    m.status == SyncStatus::Disabled || m.name.len() == 0
}

} // verus!
