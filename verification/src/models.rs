//! Plain records exchanged with the user interface.
use vstd::prelude::*;

verus! {

/// Describes one input path (file / folder / archive) shown in the UI list.
#[derive(Debug, Clone, PartialEq, Eq)]
pub struct FileInfo {
    pub path: String,
    pub name: String,
    pub size: u64,
    pub is_dir: bool,
    /// "archive" | "file" | "folder"
    pub kind: String,
    /// Lowercase format label for archives, e.g. "zip", "7z", "rar", "tar.gz"
    pub archive_format: Option<String>,
}

/// One entry inside an archive (for the preview listing).
#[derive(Debug, Clone, PartialEq, Eq)]
pub struct ArchiveEntry {
    pub path: String,
    pub size: u64,
    pub is_dir: bool,
}

/// Progress event emitted while a task runs.
#[derive(Debug, Clone, PartialEq, Eq)]
pub struct TaskProgress {
    /// "scan" | "extract" | "compress"
    pub phase: String,
    pub current: u64,
    pub total: u64,
    pub file: String,
}

/// Payload of the `task:done` event for a compression task.
#[derive(Debug, Clone, PartialEq, Eq)]
pub struct CompressResult {
    pub output: String,
    pub output_size: u64,
    pub original_size: u64,
    pub entries: u64,
    pub duration_ms: u64,
}

/// Payload of the `task:done` event for an extraction task.
#[derive(Debug, Clone, PartialEq, Eq)]
pub struct ExtractResult {
    pub dest: String,
    pub entries: u64,
    pub duration_ms: u64,
}

/// Payload of the `task:error` event.
#[derive(Debug, Clone, PartialEq, Eq)]
pub struct TaskError {
    pub message: String,
    pub cancelled: bool,
}

/// Suggested best format for the given input files.
#[derive(Debug, Clone, PartialEq, Eq)]
pub struct FormatSuggestion {
    /// The recommended format id: "zip", "7z", "tgz", "tzst", "h265", "avif".
    pub format: String,
    /// Human-readable reason for the suggestion.
    pub reason: String,
}

} // verus!
