//! The write-ahead-log command protocol.
//!
//! One sequencer logically owns the log file and applies commands strictly
//! in arrival order, which gives a total order over all mutations however
//! many caller threads submit them.  This module holds the verified core of
//! that sequencer: the command vocabulary and the state machine that turns
//! each command into the exact bytes and file action the log needs.  The
//! surrounding application runs the actor loop around it — it owns the file
//! handle and the message channel, performs each returned action (append,
//! fsync, truncate), and acknowledges `Flush` and `Shutdown` only once the
//! sync has completed, which is the durability boundary callers wait on.

use vstd::prelude::*;
use crate::record::{record_bytes, record_ok, write_record, RecordKind};
use crate::StoreError;

verus! {

/// A command submitted to the log writer.  Commands are transient messages,
/// not persisted entities.
pub enum WriteCommand {
    /// Append one record to the log; durability may be deferred.
    WriteRecord {
        /// The kind of the record.
        kind: RecordKind,
        /// The key of the record.
        key: String,
        /// The payload of the record (empty for a deletion).
        value: Vec<u8>,
    },
    /// Force everything appended so far to stable storage and only then
    /// acknowledge: the durability checkpoint clients wait on.
    Flush,
    /// Truncate the log to empty, issued after a memtable flush has made
    /// the logged entries redundant.
    Reset,
    /// Drain, sync and stop the writer; the only sanctioned way to stop it.
    Shutdown,
}

/// The file action the application must perform after a command was
/// applied.
#[derive(Debug)]
pub enum WalAction {
    /// Append these bytes to the log file; durability may be deferred.
    Append(Vec<u8>),
    /// Force buffered bytes to stable storage, then acknowledge the caller.
    Sync,
    /// Truncate the log file to empty.
    Truncate,
    /// Sync, acknowledge, and terminate the actor loop.
    SyncAndStop,
}

/// The verified state of the log writer: the byte image its file must hold
/// after every applied command, how much of it is known durable, and
/// whether the writer still accepts commands.
pub struct WalWriter {
    log: Vec<u8>,
    synced: usize,
    running: bool,
}

impl WalWriter {
    /// The bytes the log file holds after the applied commands.
    pub closed spec fn log_view(&self) -> Seq<u8> {
        self.log@
    }

    /// How many leading log bytes are known durable.
    pub closed spec fn synced_len(&self) -> int {
        self.synced as int
    }

    /// The writer still accepts commands; it stops on `Shutdown`.
    pub closed spec fn is_running(&self) -> bool {
        self.running
    }

    /// A fresh writer over an empty log.
    pub fn new() -> (w: WalWriter)
        ensures
            w.log_view() == Seq::<u8>::empty(),
            w.synced_len() == 0,
            w.is_running(),
    {
        WalWriter { log: Vec::new(), synced: 0, running: true }
    }

    /// The current log image, for recovery and inspection.
    pub fn contents(&self) -> (r: &Vec<u8>)
        ensures
            r@ == self.log_view(),
    {
        &self.log
    }

    /// Whether the writer still accepts commands.
    pub fn running(&self) -> (r: bool)
        ensures
            r == self.is_running(),
    {
        self.running
    }

    /// Applies one command in arrival order.
    ///
    /// `WriteRecord` appends the record's exact encoding to the log image;
    /// `Flush` marks the whole image durable; `Reset` empties it;
    /// `Shutdown` marks it durable and stops the writer.  A command after
    /// shutdown is refused, as is a record whose key or payload overflows
    /// its length field; a refused command changes nothing.
    pub fn apply(&mut self, cmd: WriteCommand) -> (r: Result<WalAction, StoreError>)
        ensures
            match r {
                Ok(act) => {
                    &&& old(self).is_running()
                    &&& match cmd {
                        WriteCommand::WriteRecord { kind, key, value } => {
                            &&& record_ok(key@, value@)
                            &&& final(self).log_view() == old(self).log_view() + record_bytes(
                                kind,
                                key@,
                                value@,
                            )
                            &&& final(self).synced_len() == old(self).synced_len()
                            &&& final(self).is_running()
                            &&& (act matches WalAction::Append(b) && b@ == record_bytes(
                                kind,
                                key@,
                                value@,
                            ))
                        },
                        WriteCommand::Flush => {
                            &&& final(self).log_view() == old(self).log_view()
                            &&& final(self).synced_len() == final(self).log_view().len()
                            &&& final(self).is_running()
                            &&& act is Sync
                        },
                        WriteCommand::Reset => {
                            &&& final(self).log_view() == Seq::<u8>::empty()
                            &&& final(self).synced_len() == 0
                            &&& final(self).is_running()
                            &&& act is Truncate
                        },
                        WriteCommand::Shutdown => {
                            &&& final(self).log_view() == old(self).log_view()
                            &&& final(self).synced_len() == final(self).log_view().len()
                            &&& !final(self).is_running()
                            &&& act is SyncAndStop
                        },
                    }
                },
                Err(e) => {
                    &&& final(self).log_view() == old(self).log_view()
                    &&& final(self).synced_len() == old(self).synced_len()
                    &&& final(self).is_running() == old(self).is_running()
                    &&& if !old(self).is_running() {
                        e == StoreError::Stopped
                    } else {
                        &&& e == StoreError::InvalidInput
                        &&& match cmd {
                            WriteCommand::WriteRecord { kind, key, value } => !record_ok(
                                key@,
                                value@,
                            ),
                            _ => false,
                        }
                    }
                },
            },
    {
        if !self.running {
            return Err(StoreError::Stopped);
        }
        match cmd {
            WriteCommand::WriteRecord { kind, key, value } => {
                let mut buf: Vec<u8> = Vec::new();
                match write_record(&mut buf, kind, key.as_str(), value.as_slice()) {
                    Ok(()) => {},
                    Err(e) => {
                        return Err(e);
                    },
                }
                proof {
                    assert(buf@ =~= record_bytes(kind, key@, value@));
                }
                let mut appended = vstd::slice::slice_to_vec(buf.as_slice());
                self.log.append(&mut appended);
                Ok(WalAction::Append(buf))
            },
            WriteCommand::Flush => {
                self.synced = self.log.len();
                Ok(WalAction::Sync)
            },
            WriteCommand::Reset => {
                self.log = Vec::new();
                self.synced = 0;
                Ok(WalAction::Truncate)
            },
            WriteCommand::Shutdown => {
                self.synced = self.log.len();
                self.running = false;
                Ok(WalAction::SyncAndStop)
            },
        }
    }
}

} // verus!
