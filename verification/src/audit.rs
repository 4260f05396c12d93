//! Audit records for remediation actions, and the size-triggered rotation
//! rule of the audit log.  The file writing, JSON encoding and clock
//! live outside the crate; the record layout and the rotation decision
//! live here.

use vstd::prelude::*;

verus! {

/// One line of the audit log.
pub struct AuditLogEntry {
    /// RFC 3339 wall-clock text, supplied by the caller's clock.
    pub timestamp: String,
    pub user: String,
    pub action: String,
    pub target_pid: u32,
    pub target_job_id: Option<String>,
    pub result: String,
    pub details: String,
}

/// Assembles an audit record from the caller's clock and identity.
pub fn create_audit_entry(
    timestamp: String,
    user: String,
    action: &str,
    target_pid: u32,
    target_job_id: Option<String>,
    result: &str,
    details: &str,
) -> (r: AuditLogEntry)
    ensures
        r.timestamp@ == timestamp@,
        r.user@ == user@,
        r.action@ == action@,
        r.target_pid == target_pid,
        crate::event::opt_string_view(r.target_job_id) == crate::event::opt_string_view(
            target_job_id,
        ),
        r.result@ == result@,
        r.details@ == details@,
{
    AuditLogEntry {
        timestamp,
        user,
        action: action.to_owned(),
        target_pid,
        target_job_id,
        result: result.to_owned(),
        details: details.to_owned(),
    }
}

/// Whether writing one more line must rotate the log first: the size
/// would pass the bound.
pub fn should_rotate(current_size: u64, line_bytes: u64, max_bytes: u64) -> (r: bool)
    ensures
        r == (current_size + line_bytes > max_bytes),
{
    if line_bytes > max_bytes {
        true
    } else {
        current_size > max_bytes - line_bytes
    }
}

/// The suffix a rotated log file takes: `.<stamp>.log`, never a
/// truncation of the live file.
pub fn rotated_suffix(stamp: &str) -> (r: String)
    ensures
        r@ == "."@ + stamp@ + ".log"@,
{
    let r = String::from_str(".").concat(stamp).concat(".log");
    proof {
        assert(r@ =~= "."@ + stamp@ + ".log"@);
    }
    r
}

} // verus!
