//! Plain state types of the editor: log levels, file tree entries, pending actions.

use vstd::prelude::*;
use vstd::string::StringExecFns;
use crate::clock::{now_timestamp, format_local_timestamp, rfc3339_parses};
use crate::crypto::CryptoError;

verus! {

/// Severity of a debug log entry.
#[derive(Debug, Clone, Copy, PartialEq, Eq, Structural)]
pub enum LogLevel {
    Info,
    Success,
    Warning,
    Error,
}

/// Status of a file relative to the keyfile that is loaded.
#[derive(Debug, Clone, Copy, PartialEq, Eq, Structural)]
pub enum KeyStatus {
    /// Not checked yet.
    Unknown,
    /// Opens with the loaded keyfile.
    Decryptable,
    /// Encrypted for another keyfile.
    WrongKey,
    /// Not an encrypted SEN file.
    NotSen,
}

impl Default for KeyStatus {
    fn default() -> (res: Self)
        ensures
            res == KeyStatus::Unknown,
    {
        KeyStatus::Unknown
    }
}

/// Operation of the batch converter.
#[derive(Debug, Clone, Copy, PartialEq, Eq, Structural)]
pub enum BatchMode {
    Encrypt,
    Decrypt,
    Rotate,
}

impl Default for BatchMode {
    fn default() -> (res: Self)
        ensures
            res == BatchMode::Encrypt,
    {
        BatchMode::Encrypt
    }
}

/// The label of a log level.
pub open spec fn level_label(level: LogLevel) -> Seq<char> {
    match level {
        LogLevel::Info => "INFO"@,
        LogLevel::Success => "SUCCESS"@,
        LogLevel::Warning => "WARN"@,
        LogLevel::Error => "ERROR"@,
    }
}

/// An entry of the debug log. `timestamp` is the local time at which it was
/// made, in RFC 3339.
pub struct LogEntry {
    pub timestamp: String,
    pub level: LogLevel,
    pub message: String,
}

impl LogEntry {
    /// An entry made now.
    pub fn new(level: LogLevel, message: String) -> (res: LogEntry)
        ensures
            res.level == level,
            res.message == message,
    {
        LogEntry { timestamp: now_timestamp(), level, message }
    }

    /// The entry as one line: "[HH:MM:SS] LEVEL: message", the time in the
    /// machine's time zone.
    pub fn display(&self) -> (res: String)
        ensures
            exists|time: Seq<char>| res@ == "["@ + time + "] "@ + level_label(self.level) + ": "@ + self.message@,
            !rfc3339_parses(self.timestamp@)
                ==> res@ == "["@ + self.timestamp@ + "] "@ + level_label(self.level) + ": "@ + self.message@,
    {
        let label = match self.level {
            LogLevel::Info => "INFO",
            LogLevel::Success => "SUCCESS",
            LogLevel::Warning => "WARN",
            LogLevel::Error => "ERROR",
        };
        proof {
            reveal_strlit("INFO");
            reveal_strlit("SUCCESS");
            reveal_strlit("WARN");
            reveal_strlit("ERROR");
        }
        let time = match format_local_timestamp(self.timestamp.as_str(), "%H:%M:%S") {
            Some(t) => t,
            None => self.timestamp.clone(),
        };
        let mut res = "[".to_owned();
        res.append(time.as_str());
        res.append("] ");
        res.append(label);
        res.append(": ");
        res.append(self.message.as_str());
        assert(res@ =~= "["@ + time@ + "] "@ + level_label(self.level) + ": "@ + self.message@);
        res
    }
}

/// Which levels the debug panel shows.
#[derive(Debug, Clone, Copy, PartialEq, Eq, Structural)]
pub struct LogFilter {
    pub show_info: bool,
    pub show_success: bool,
    pub show_warning: bool,
    pub show_error: bool,
}

/// True when `filter` shows entries of `level`.
pub open spec fn shows(filter: LogFilter, level: LogLevel) -> bool {
    match level {
        LogLevel::Info => filter.show_info,
        LogLevel::Success => filter.show_success,
        LogLevel::Warning => filter.show_warning,
        LogLevel::Error => filter.show_error,
    }
}

/// Whether the debug panel shows an entry of `level`.
pub fn level_shown(filter: LogFilter, level: LogLevel) -> (res: bool)
    ensures
        res == shows(filter, level),
{
    match level {
        LogLevel::Info => filter.show_info,
        LogLevel::Success => filter.show_success,
        LogLevel::Warning => filter.show_warning,
        LogLevel::Error => filter.show_error,
    }
}

/// The positions of the log entries the debug panel shows, oldest first.
pub fn shown_entries(log: &[LogEntry], filter: LogFilter) -> (res: Vec<usize>)
    ensures
        forall|k: int| 0 <= k < res@.len() ==> 0 <= #[trigger] res@[k] < log@.len() && shows(filter, log@[res@[k] as int].level),
        forall|k1: int, k2: int| 0 <= k1 < k2 < res@.len() ==> #[trigger] res@[k1] < #[trigger] res@[k2],
        forall|i: int| 0 <= i < log@.len() && shows(filter, #[trigger] log@[i].level) ==> res@.contains(i as usize),
{
    let mut res: Vec<usize> = Vec::new();
    let mut i: usize = 0;
    while i < log.len()
        invariant
            i <= log@.len(),
            forall|k: int| 0 <= k < res@.len() ==> 0 <= #[trigger] res@[k] < i && shows(filter, log@[res@[k] as int].level),
            forall|k1: int, k2: int| 0 <= k1 < k2 < res@.len() ==> #[trigger] res@[k1] < #[trigger] res@[k2],
            forall|j: int| 0 <= j < i && shows(filter, #[trigger] log@[j].level) ==> res@.contains(j as usize),
        decreases log@.len() - i,
    {
        if level_shown(filter, log[i].level) {
            let ghost before = res@;
            res.push(i);
            proof {
                assert(res@[res@.len() - 1] == i);
                assert forall|j: int| 0 <= j < i + 1 && shows(filter, #[trigger] log@[j].level)
                    implies res@.contains(j as usize) by {
                    if j < i {
                        let k = choose|k: int| 0 <= k < before.len() && before[k] == j as usize;
                        assert(res@[k] == j as usize);
                    } else {
                        assert(res@[res@.len() - 1] == j as usize);
                    }
                }
            }
        }
        i = i + 1;
    }
    res
}

/// The length past which an information entry shortens the debug log.
pub const DEBUG_LOG_LIMIT: usize = 1000;

/// How many of the oldest entries go when the debug log is shortened.
pub const DEBUG_LOG_TRIM: usize = 100;

/// The debug log after `entry` is added at its end; an information entry
/// that takes the log past `DEBUG_LOG_LIMIT` drops its `DEBUG_LOG_TRIM`
/// oldest entries.
pub open spec fn logged(log: Seq<LogEntry>, entry: LogEntry) -> Seq<LogEntry> {
    let added = log.push(entry);
    if entry.level == LogLevel::Info && added.len() > DEBUG_LOG_LIMIT {
        added.skip(DEBUG_LOG_TRIM as int)
    } else {
        added
    }
}

/// Adds an entry to the debug log.
pub fn push_log(log: &mut Vec<LogEntry>, entry: LogEntry)
    requires
        old(log)@.len() < usize::MAX,
    ensures
        final(log)@ == logged(old(log)@, entry),
        final(log)@.last() == entry,
        entry.level == LogLevel::Info && old(log)@.len() <= DEBUG_LOG_LIMIT ==> final(log)@.len() <= DEBUG_LOG_LIMIT,
{
    let is_info = match entry.level {
        LogLevel::Info => true,
        _ => false,
    };
    log.push(entry);
    if is_info && log.len() > DEBUG_LOG_LIMIT {
        let kept = log.split_off(DEBUG_LOG_TRIM);
        *log = kept;
    }
}

/// An entry of the file tree: a folder or a SEN file, how deep it lies
/// below the opened folder, and whether a folder is unfolded.
pub struct FileTreeEntry {
    pub path: String,
    pub is_dir: bool,
    pub is_expanded: bool,
    pub depth: usize,
}

/// What to do once unsaved changes are dealt with.
pub enum PendingAction {
    /// Nothing is pending.
    NoAction,
    NewDocument,
    OpenFile,
    OpenDirectory,
    Exit,
    OpenFileFromTree(String),
    ChangeDirectory(String),
}

/// True when `action` keeps the open document, so unsaved changes need no
/// confirmation.
pub open spec fn keeps_document(action: PendingAction) -> bool {
    action is OpenDirectory || action is ChangeDirectory
}

/// Whether `action` must first be confirmed because the document has unsaved
/// changes that it would drop; otherwise it runs at once.
pub fn needs_confirmation(is_modified: bool, action: &PendingAction) -> (res: bool)
    ensures
        res == (is_modified && !keeps_document(*action)),
{
    let keeps = match action {
        PendingAction::OpenDirectory => true,
        PendingAction::ChangeDirectory(_) => true,
        _ => false,
    };
    is_modified && !keeps
}

/// The status shown for a file given the outcome of checking it against the
/// loaded keyfile: a file without the magic number is no SEN file, and any
/// other failure counts as a wrong key.
pub open spec fn status_of(check: Result<bool, CryptoError>) -> KeyStatus {
    match check {
        Ok(true) => KeyStatus::Decryptable,
        Ok(false) => KeyStatus::WrongKey,
        Err(CryptoError::InvalidMagicNumber) => KeyStatus::NotSen,
        Err(_) => KeyStatus::WrongKey,
    }
}

/// The status shown for a file given the outcome of checking it.
pub fn access_status(check: &Result<bool, CryptoError>) -> (res: KeyStatus)
    ensures
        res == status_of(*check),
{
    match check {
        Ok(true) => KeyStatus::Decryptable,
        Ok(false) => KeyStatus::WrongKey,
        Err(CryptoError::InvalidMagicNumber) => KeyStatus::NotSen,
        Err(_) => KeyStatus::WrongKey,
    }
}

} // verus!
