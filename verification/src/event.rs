//! The events the handler consumes, and the actions it asks its caller to
//! perform.

use vstd::prelude::*;
use vstd::string::StringExecFns;
use std::sync::Arc;
use crate::error::HummockError;
use crate::memtable::{HummockEpoch, ImmutableMemtable, TableId};
use crate::upload_handle_manager::TaskId;
use crate::version::{LocalSstableInfo, Payload, PinnedVersion, VersionView};

verus! {

/// Names the far end of a reply channel that the caller holds.
pub type SenderId = u64;

/// Names one reader instance of a table.
pub type InstanceId = u64;

/// A write batch that waits for its memory to be granted.
#[derive(Debug)]
pub struct BufferWriteRequest {
    pub batch: Arc<ImmutableMemtable>,
    pub epoch: HummockEpoch,
    pub grant_sender: SenderId,
}

#[derive(Debug)]
pub enum HummockEvent {
    /// Notify that we may flush the shared buffer.
    BufferMayFlush,
    /// An epoch is going to be synced. The result goes to the sender.
    SyncEpoch { new_sync_epoch: HummockEpoch, sync_result_sender: SenderId },
    /// Clear shared buffer and reset all states.
    Clear(SenderId),
    Shutdown,
    VersionUpdate(Payload),
    ImmToUploader(Arc<ImmutableMemtable>),
    SealEpoch { epoch: HummockEpoch, is_checkpoint: bool },
    RegisterHummockInstance { table_id: TableId, instance_id: InstanceId, sync_result_sender: SenderId },
    DestroyHummockInstance { table_id: TableId, instance_id: InstanceId },
}

/// The character of the decimal digit `digit`.
pub open spec fn digit_char(digit: int) -> char {
    if digit == 0 {
        '0'
    } else if digit == 1 {
        '1'
    } else if digit == 2 {
        '2'
    } else if digit == 3 {
        '3'
    } else if digit == 4 {
        '4'
    } else if digit == 5 {
        '5'
    } else if digit == 6 {
        '6'
    } else if digit == 7 {
        '7'
    } else if digit == 8 {
        '8'
    } else {
        '9'
    }
}

/// `n` in decimal digits, without leading zeros.
pub open spec fn decimal(n: nat) -> Seq<char>
    decreases n,
{
    if n < 10 {
        seq![digit_char(n as int)]
    } else {
        decimal(n / 10).push(digit_char((n % 10) as int))
    }
}

/// `flag` as Rust writes it.
pub open spec fn bool_text(flag: bool) -> Seq<char> {
    if flag {
        "true"@
    } else {
        "false"@
    }
}

/// A table id as its derived `Debug` writes it.
pub open spec fn table_id_text(table_id: TableId) -> Seq<char> {
    "TableId { table_id: "@ + decimal(table_id.table_id as nat) + " }"@
}

/// A version payload in short: what it is, and the version it leads to or
/// the number of its deltas.
pub open spec fn payload_text(payload: Payload) -> Seq<char> {
    match payload {
        Payload::PinnedVersion(version) => "PinnedVersion { id: "@ + decimal(version.id as nat)
            + ", max_committed_epoch: "@ + decimal(version.max_committed_epoch as nat) + " }"@,
        Payload::VersionDeltas(deltas) => "VersionDeltas { len: "@ + decimal(deltas@.len()) + " }"@,
    }
}

/// A memtable in short: its epoch, table and size.
pub open spec fn memtable_text(imm: Arc<ImmutableMemtable>) -> Seq<char> {
    "ImmutableMemtable { epoch: "@ + decimal(imm.spec_epoch() as nat) + ", table_id: "@ + decimal(
        imm.spec_table_id().table_id as nat,
    ) + ", size: "@ + decimal(imm.spec_size() as nat) + " }"@
}

/// Appends the decimal digits of `n` to `text`.
pub fn push_decimal(text: &mut String, n: u64)
    ensures
        final(text)@ == old(text)@ + decimal(n as nat),
    decreases n,
{
    if n >= 10 {
        push_decimal(text, n / 10);
    }
    let digit = match n % 10 {
        0 => "0",
        1 => "1",
        2 => "2",
        3 => "3",
        4 => "4",
        5 => "5",
        6 => "6",
        7 => "7",
        8 => "8",
        _ => "9",
    };
    proof {
        reveal_strlit("0");
        reveal_strlit("1");
        reveal_strlit("2");
        reveal_strlit("3");
        reveal_strlit("4");
        reveal_strlit("5");
        reveal_strlit("6");
        reveal_strlit("7");
        reveal_strlit("8");
        reveal_strlit("9");
        assert(digit@ =~= seq![digit_char((n % 10) as int)]);
    }
    let ghost before = text@;
    text.append(digit);
    proof {
        if n >= 10 {
            assert(text@ =~= old(text)@ + decimal((n / 10) as nat).push(digit_char((n % 10) as int)));
        } else {
            assert(text@ =~= old(text)@ + seq![digit_char(n as int)]);
        }
    }
}

impl HummockEvent {
    /// The event as one line of text.
    pub open spec fn spec_debug_string(&self) -> Seq<char> {
        match self {
            HummockEvent::BufferMayFlush => "BufferMayFlush"@,
            HummockEvent::SyncEpoch { new_sync_epoch, sync_result_sender } => "SyncEpoch epoch "@
                + decimal(*new_sync_epoch as nat) + " "@,
            HummockEvent::Clear(_) => "Clear"@,
            HummockEvent::Shutdown => "Shutdown"@,
            HummockEvent::VersionUpdate(payload) => "VersionUpdate "@ + payload_text(*payload),
            HummockEvent::ImmToUploader(imm) => "ImmToUploader "@ + memtable_text(*imm),
            HummockEvent::SealEpoch { epoch, is_checkpoint } => "SealEpoch epoch "@ + decimal(
                *epoch as nat,
            ) + " is_checkpoint "@ + bool_text(*is_checkpoint),
            HummockEvent::RegisterHummockInstance { table_id, instance_id, sync_result_sender } => {
                "RegisterHummockInstance table_id "@ + table_id_text(*table_id) + " instance_id "@
                    + decimal(*instance_id as nat)
            },
            HummockEvent::DestroyHummockInstance { table_id, instance_id } => {
                "DestroyHummockInstance table_id "@ + table_id_text(*table_id) + " instance_id "@
                    + decimal(*instance_id as nat)
            },
        }
    }

    pub fn to_debug_string(&self) -> (text: String)
        ensures
            text@ == self.spec_debug_string(),
    {
        match self {
            HummockEvent::BufferMayFlush => String::from_str("BufferMayFlush"),
            HummockEvent::SyncEpoch { new_sync_epoch, sync_result_sender } => {
                let mut text = String::from_str("SyncEpoch epoch ");
                push_decimal(&mut text, *new_sync_epoch);
                text.append(" ");
                text
            },
            HummockEvent::Clear(_) => String::from_str("Clear"),
            HummockEvent::Shutdown => String::from_str("Shutdown"),
            HummockEvent::VersionUpdate(payload) => {
                let mut text = String::from_str("VersionUpdate ");
                match payload {
                    Payload::PinnedVersion(version) => {
                        text.append("PinnedVersion { id: ");
                        push_decimal(&mut text, version.id);
                        text.append(", max_committed_epoch: ");
                        push_decimal(&mut text, version.max_committed_epoch);
                        text.append(" }");
                        assert(text@ =~= self.spec_debug_string());
                    },
                    Payload::VersionDeltas(deltas) => {
                        text.append("VersionDeltas { len: ");
                        push_decimal(&mut text, deltas.len() as u64);
                        text.append(" }");
                        assert(text@ =~= self.spec_debug_string());
                    },
                }
                text
            },
            HummockEvent::ImmToUploader(imm) => {
                let mut text = String::from_str("ImmToUploader ");
                text.append("ImmutableMemtable { epoch: ");
                push_decimal(&mut text, imm.epoch());
                text.append(", table_id: ");
                push_decimal(&mut text, imm.table_id().table_id as u64);
                text.append(", size: ");
                push_decimal(&mut text, imm.size() as u64);
                text.append(" }");
                assert(text@ =~= self.spec_debug_string());
                text
            },
            HummockEvent::SealEpoch { epoch, is_checkpoint } => {
                let mut text = String::from_str("SealEpoch epoch ");
                push_decimal(&mut text, *epoch);
                text.append(" is_checkpoint ");
                if *is_checkpoint {
                    text.append("true");
                } else {
                    text.append("false");
                }
                assert(text@ =~= self.spec_debug_string());
                text
            },
            HummockEvent::RegisterHummockInstance { table_id, instance_id, sync_result_sender } => {
                let mut text = String::from_str("RegisterHummockInstance table_id ");
                text.append("TableId { table_id: ");
                push_decimal(&mut text, table_id.table_id as u64);
                text.append(" }");
                text.append(" instance_id ");
                push_decimal(&mut text, *instance_id);
                assert(text@ =~= self.spec_debug_string());
                text
            },
            HummockEvent::DestroyHummockInstance { table_id, instance_id } => {
                let mut text = String::from_str("DestroyHummockInstance table_id ");
                text.append("TableId { table_id: ");
                push_decimal(&mut text, table_id.table_id as u64);
                text.append(" }");
                text.append(" instance_id ");
                push_decimal(&mut text, *instance_id);
                assert(text@ =~= self.spec_debug_string());
                text
            },
        }
    }
}

/// What the event loop hands to the handler: the end of an upload, with
/// the files it produced or, if it failed, with none; an event from the
/// channel; or the news that the channel is closed.
#[derive(Debug)]
pub enum HandlerInput {
    UploadFinished { task_id: TaskId, produced: Option<Vec<LocalSstableInfo>> },
    Event(HummockEvent),
    ChannelClosed,
}

/// A state in which the handler cannot go on. The event loop has to stop.
#[derive(Clone, Copy, Debug, PartialEq, Eq, Structural)]
pub enum HandlerFault {
    /// No id is left for a new upload task.
    TaskIdsExhausted,
    /// A sync was to start on a record that is not sealed.
    SyncNotSealed,
    /// There is no record for a sync epoch that is not above all others.
    SyncRecordMissing,
    /// The uploads of an epoch have ended while its record is still
    /// syncing.
    SyncStillRunning,
    /// A sync result is there and no request is pending for it.
    NoPendingSyncRequest,
    /// An epoch was sealed that is not above the largest sync epoch.
    SealEpochNotAdvancing,
    /// A memtable has arrived whose bytes were not reserved.
    MemoryNotReserved,
    /// An instance was to be destroyed that is not registered.
    InstanceNotRegistered,
    /// The version payload cannot be applied.
    Storage(HummockError),
}

/// What the handler hands back to the event loop.
#[derive(Debug)]
pub struct HandlerOutput {
    /// What the caller has to do, in order.
    pub actions: Vec<HandlerAction>,
    /// Whether the event loop has to end.
    pub shutdown: bool,
}

/// What a sync hands to its requester.
#[derive(Debug)]
pub struct SyncResult {
    /// The bytes that the sync uploaded.
    pub sync_size: usize,
    /// The files that hold the data of the epoch.
    pub uncommitted_ssts: Vec<LocalSstableInfo>,
}

/// The result of a sync as a mathematical object.
pub struct SyncResultView {
    pub sync_size: usize,
    pub uncommitted_ssts: Seq<LocalSstableInfo>,
}

impl View for SyncResult {
    type V = SyncResultView;

    open spec fn view(&self) -> SyncResultView {
        SyncResultView { sync_size: self.sync_size, uncommitted_ssts: self.uncommitted_ssts@ }
    }
}

/// What the handler asks its caller to do.
#[derive(Debug)]
pub enum HandlerAction {
    /// Upload one memtable in the background as the task `task_id`.
    SpawnFlushTask { task_id: TaskId, epoch: HummockEpoch, payload: Arc<ImmutableMemtable> },
    /// Upload the payload of a sync in the background as the task `task_id`.
    SpawnSyncTask {
        task_id: TaskId,
        epoch: HummockEpoch,
        payload: Vec<Arc<ImmutableMemtable>>,
        pinned_version: PinnedVersion,
        sync_size: usize,
    },
    /// Send the result of a sync to its requester.
    SendSyncResult { sender: SenderId, result: Result<SyncResult, HummockError> },
    /// Tell the version watchers that the committed epoch has grown.
    NotifyVersionUpdate { max_committed_epoch: HummockEpoch },
    /// Move the watermark of the conflict detector.
    SetConflictWatermark { epoch: HummockEpoch },
    /// Drop the file-id watermark that was kept for `epoch`.
    RemoveWatermarkSstId { epoch: HummockEpoch },
    /// Hand the new reader instance to its requester.
    InstanceRegistered { table_id: TableId, instance_id: InstanceId, sender: SenderId },
    /// Wait for these uploads to end; their outcome no longer matters.
    AwaitUploads { tasks: Vec<TaskId> },
    /// Signal that the clear is done.
    NotifyCleared { notifier: SenderId },
}

/// An action as a mathematical object.
pub enum ActionView {
    SpawnFlushTask { task_id: TaskId, epoch: HummockEpoch, payload: Arc<ImmutableMemtable> },
    SpawnSyncTask {
        task_id: TaskId,
        epoch: HummockEpoch,
        payload: Seq<Arc<ImmutableMemtable>>,
        pinned_version: VersionView,
        sync_size: usize,
    },
    SendSyncResult { sender: SenderId, result: Result<SyncResultView, HummockError> },
    NotifyVersionUpdate { max_committed_epoch: HummockEpoch },
    SetConflictWatermark { epoch: HummockEpoch },
    RemoveWatermarkSstId { epoch: HummockEpoch },
    InstanceRegistered { table_id: TableId, instance_id: InstanceId, sender: SenderId },
    AwaitUploads { tasks: Seq<TaskId> },
    NotifyCleared { notifier: SenderId },
}

impl View for HandlerAction {
    type V = ActionView;

    open spec fn view(&self) -> ActionView {
        match self {
            HandlerAction::SpawnFlushTask { task_id, epoch, payload } => ActionView::SpawnFlushTask {
                task_id: *task_id,
                epoch: *epoch,
                payload: *payload,
            },
            HandlerAction::SpawnSyncTask { task_id, epoch, payload, pinned_version, sync_size } => {
                ActionView::SpawnSyncTask {
                    task_id: *task_id,
                    epoch: *epoch,
                    payload: payload@,
                    pinned_version: pinned_version@,
                    sync_size: *sync_size,
                }
            },
            HandlerAction::SendSyncResult { sender, result } => ActionView::SendSyncResult {
                sender: *sender,
                result: match result {
                    Ok(synced) => Ok(synced@),
                    Err(error) => Err(*error),
                },
            },
            HandlerAction::NotifyVersionUpdate { max_committed_epoch } => ActionView::NotifyVersionUpdate {
                max_committed_epoch: *max_committed_epoch,
            },
            HandlerAction::SetConflictWatermark { epoch } => ActionView::SetConflictWatermark {
                epoch: *epoch,
            },
            HandlerAction::RemoveWatermarkSstId { epoch } => ActionView::RemoveWatermarkSstId {
                epoch: *epoch,
            },
            HandlerAction::InstanceRegistered { table_id, instance_id, sender } => {
                ActionView::InstanceRegistered {
                    table_id: *table_id,
                    instance_id: *instance_id,
                    sender: *sender,
                }
            },
            HandlerAction::AwaitUploads { tasks } => ActionView::AwaitUploads { tasks: tasks@ },
            HandlerAction::NotifyCleared { notifier } => ActionView::NotifyCleared { notifier: *notifier },
        }
    }
}

/// The views of `actions`, in order.
pub open spec fn action_views(actions: Seq<HandlerAction>) -> Seq<ActionView> {
    actions.map_values(|action: HandlerAction| action@)
}

} // verus!
