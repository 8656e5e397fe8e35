//! Snapshot journal events for runtime state capture and restore:
//! recording a syscall's effect as an event, and judging the outcome
//! of replaying it.

use vstd::prelude::*;
use crate::text::{push_str_chars, push_u64, chars_to_string, dec_rep};

verus! {

/// The clock a time was set on.
#[derive(Debug, Clone, Copy, PartialEq, Eq)]
pub enum Snapshot0Clockid {
    Realtime,
    Monotonic,
    ProcessCputimeId,
    ThreadCputimeId,
}

/// The rendered name of a clock id.
pub open spec fn clock_name(c: Snapshot0Clockid) -> Seq<char> {
    match c {
        Snapshot0Clockid::Realtime => "Realtime"@,
        Snapshot0Clockid::Monotonic => "Monotonic"@,
        Snapshot0Clockid::ProcessCputimeId => "ProcessCputimeId"@,
        Snapshot0Clockid::ThreadCputimeId => "ThreadCputimeId"@,
    }
}

/// One recorded event of the snapshot journal.
#[derive(Debug, Clone, Copy, PartialEq, Eq)]
pub enum SnapshotLog {
    SetClockTime { clock_id: Snapshot0Clockid, time: u64 },
    FileDescriptorSetRights { fd: u32, fs_rights_base: u64, fs_rights_inheriting: u64 },
}

/// Records and replays snapshot journal events.
#[derive(Debug, Clone, Copy, PartialEq, Eq)]
pub struct SnapshotEffector;

impl SnapshotEffector {
    /// Records that a clock was set.
    pub fn save_clock_time_set(
        journal: &mut Vec<SnapshotLog>,
        clock_id: Snapshot0Clockid,
        time: u64,
    ) -> (r: Result<(), String>)
        ensures
            r is Ok,
            final(journal)@ == old(journal)@.push(
                SnapshotLog::SetClockTime { clock_id, time },
            ),
    {
        journal.push(SnapshotLog::SetClockTime { clock_id, time });
        Ok(())
    }

    /// Judges a replayed clock set: any error number but success means
    /// the restore failed, with a message naming the clock and time.
    pub fn apply_clock_time_set(clock_id: Snapshot0Clockid, time: u64, errno: u16) -> (r:
        Result<(), String>)
        ensures
            r is Ok <==> errno == 0,
            r matches Err(m) ==> m@ == "snapshot restore error: failed to set clock time (clock_id="@
                + clock_name(clock_id) + ", time="@ + dec_rep(time as nat) + ") - errno "@
                + dec_rep(errno as nat),
    {
        if errno == 0 {
            return Ok(());
        }
        let mut out: Vec<char> = Vec::new();
        push_str_chars(&mut out, "snapshot restore error: failed to set clock time (clock_id=");
        match clock_id {
            Snapshot0Clockid::Realtime => push_str_chars(&mut out, "Realtime"),
            Snapshot0Clockid::Monotonic => push_str_chars(&mut out, "Monotonic"),
            Snapshot0Clockid::ProcessCputimeId => push_str_chars(&mut out, "ProcessCputimeId"),
            Snapshot0Clockid::ThreadCputimeId => push_str_chars(&mut out, "ThreadCputimeId"),
        }
        push_str_chars(&mut out, ", time=");
        push_u64(&mut out, time);
        push_str_chars(&mut out, ") - errno ");
        push_u64(&mut out, errno as u64);
        proof {
            assert(out@ =~= "snapshot restore error: failed to set clock time (clock_id="@
                + clock_name(clock_id) + ", time="@ + dec_rep(time as nat) + ") - errno "@
                + dec_rep(errno as nat));
        }
        Err(chars_to_string(&out))
    }

    /// Records that a descriptor's rights were narrowed.
    pub fn save_fd_set_rights(
        journal: &mut Vec<SnapshotLog>,
        fd: u32,
        fs_rights_base: u64,
        fs_rights_inheriting: u64,
    ) -> (r: Result<(), String>)
        ensures
            r is Ok,
            final(journal)@ == old(journal)@.push(
                SnapshotLog::FileDescriptorSetRights { fd, fs_rights_base, fs_rights_inheriting },
            ),
    {
        journal.push(
            SnapshotLog::FileDescriptorSetRights { fd, fs_rights_base, fs_rights_inheriting },
        );
        Ok(())
    }

    /// Judges a replayed rights change: any error number but success
    /// means the restore failed, with a message naming the descriptor
    /// and both rights sets.
    pub fn apply_fd_set_rights(
        fd: u32,
        fs_rights_base: u64,
        fs_rights_inheriting: u64,
        errno: u16,
    ) -> (r: Result<(), String>)
        ensures
            r is Ok <==> errno == 0,
            r matches Err(m) ==> m@
                == "snapshot restore error: failed to duplicate file descriptor (fd="@ + dec_rep(
                fd as nat,
            ) + ", fs_rights_base="@ + dec_rep(fs_rights_base as nat)
                + ", fs_rights_inheriting="@ + dec_rep(fs_rights_inheriting as nat)
                + ") - errno "@ + dec_rep(errno as nat),
    {
        if errno == 0 {
            return Ok(());
        }
        let mut out: Vec<char> = Vec::new();
        push_str_chars(
            &mut out,
            "snapshot restore error: failed to duplicate file descriptor (fd=",
        );
        push_u64(&mut out, fd as u64);
        push_str_chars(&mut out, ", fs_rights_base=");
        push_u64(&mut out, fs_rights_base);
        push_str_chars(&mut out, ", fs_rights_inheriting=");
        push_u64(&mut out, fs_rights_inheriting);
        push_str_chars(&mut out, ") - errno ");
        push_u64(&mut out, errno as u64);
        proof {
            assert(out@ =~= "snapshot restore error: failed to duplicate file descriptor (fd="@
                + dec_rep(fd as nat) + ", fs_rights_base="@ + dec_rep(fs_rights_base as nat)
                + ", fs_rights_inheriting="@ + dec_rep(fs_rights_inheriting as nat)
                + ") - errno "@ + dec_rep(errno as nat));
        }
        Err(chars_to_string(&out))
    }
}

} // verus!
