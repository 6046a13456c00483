//! The records that a scan reads and produces: requests, progress, quality
//! evidence, candidates, duplicate groups, dispositions and plans.
use vstd::prelude::*;
use crate::path::FilePath;

verus! {

/// A category of files that the owner may select for a scan.
#[derive(Debug, Clone, Copy, PartialEq, Eq, Hash, Structural)]
pub enum SelectionType {
    Video,
    Audio,
    Document,
    Image,
}

/// What the owner asks to scan: source folders and file categories.
#[derive(Debug, Clone)]
pub struct ScanRequest {
    pub sources: Vec<String>,
    pub selected_types: Vec<SelectionType>,
}

/// A request to connect a NAS share under given credentials.
#[derive(Debug, Clone)]
pub struct NasConnectRequest {
    pub unc_path: String,
    pub username: String,
    pub password: String,
    pub remember_connection: bool,
}

/// What a scan reports while it runs and when it ends.
#[derive(Debug, Clone)]
pub struct ScanProgress {
    pub scanning: bool,
    pub phase: String,
    pub current: u64,
    pub total: u64,
    pub percentage: u8,
    pub current_path: Option<String>,
    pub files_considered: u64,
    pub message: String,
    pub error: Option<String>,
}

pub const READY_PHASE: &'static str = "Ready";

pub const READY_MESSAGE: &'static str = "Choose sources and file types. LumaSift will build a review-only plan before moving anything.";

/// The progress before any scan: idle, nothing counted.
pub open spec fn is_idle_progress(p: ScanProgress) -> bool {
    &&& !p.scanning
    &&& p.phase@ == READY_PHASE@
    &&& p.current == 0
    &&& p.total == 0
    &&& p.percentage == 0
    &&& p.current_path is None
    &&& p.files_considered == 0
    &&& p.message@ == READY_MESSAGE@
    &&& p.error is None
}

impl Default for ScanProgress {
    fn default() -> (p: Self)
        ensures
            is_idle_progress(p),
    {
        ScanProgress {
            scanning: false,
            phase: String::from_str(READY_PHASE),
            current: 0,
            total: 0,
            percentage: 0,
            current_path: None,
            files_considered: 0,
            message: String::from_str(READY_MESSAGE),
            error: None,
        }
    }
}

/// The evidence on which a copy was ranked.
#[derive(Debug, Clone)]
pub struct QualityEvidence {
    pub width: Option<u64>,
    pub height: Option<u64>,
    pub pixel_count: u64,
    pub bitrate: Option<u64>,
    pub bit_depth: Option<u64>,
    pub duration_millis: Option<u64>,
    pub file_size_bytes: u64,
    pub reasons: Vec<String>,
}

impl Default for QualityEvidence {
    fn default() -> (q: Self)
        ensures
            q.width is None,
            q.height is None,
            q.pixel_count == 0,
            q.bitrate is None,
            q.bit_depth is None,
            q.duration_millis is None,
            q.file_size_bytes == 0,
            q.reasons@.len() == 0,
    {
        QualityEvidence {
            width: None,
            height: None,
            pixel_count: 0,
            bitrate: None,
            bit_depth: None,
            duration_millis: None,
            file_size_bytes: 0,
            reasons: Vec::new(),
        }
    }
}

/// One copy in an exact-duplicate group.
#[derive(Debug, Clone)]
pub struct Candidate {
    pub id: String,
    pub file_path: String,
    pub display_name: String,
    pub media_kind: String,
    pub exact_hash: String,
    pub quality_score: u64,
    pub quality: QualityEvidence,
    pub disposition: String,
    pub disposition_detail: String,
    pub quarantine_path: Option<String>,
}

/// Copies whose full content digests are equal.
#[derive(Debug, Clone)]
pub struct DuplicateGroup {
    pub id: String,
    pub exact_hash: String,
    pub winner_id: String,
    pub reclaimable_bytes: u64,
    pub candidates: Vec<Candidate>,
}

/// An audit record of what happened, or will happen, to one file.
#[derive(Debug, Clone)]
pub struct Disposition {
    pub occurred_at: String,
    pub file_path: String,
    pub display_name: String,
    pub disposition: String,
    pub detail: String,
}

/// A reviewable plan of exact-duplicate groups.
#[derive(Debug, Clone)]
pub struct ResolutionPlan {
    pub id: String,
    pub status: String,
    pub selected_types: Vec<SelectionType>,
    pub created_at: String,
    pub groups: Vec<DuplicateGroup>,
    pub reclaimable_bytes: u64,
    pub queued_file_count: u64,
    pub dispositions: Vec<Disposition>,
}

/// A file found in a selected source: where it is, its category and its size.
#[derive(Debug, Clone)]
pub struct IndexedFile {
    pub path: FilePath,
    pub media_kind: String,
    pub bytes: u64,
}

pub const RETAIN: &'static str = "retain";
pub const QUEUED_FOR_QUARANTINE: &'static str = "queued_for_quarantine";
pub const QUARANTINED: &'static str = "quarantined";
pub const FAILED: &'static str = "failed";
pub const SKIPPED: &'static str = "skipped";
pub const PENDING_REVIEW: &'static str = "pending_review";

pub const STATUS_READY: &'static str = "ready_for_review";
pub const STATUS_CANCELLED: &'static str = "cancelled";
pub const STATUS_APPLIED: &'static str = "applied_to_quarantine";
pub const STATUS_PARTIAL: &'static str = "partially_applied";

} // verus!
