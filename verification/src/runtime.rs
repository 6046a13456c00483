//! The scan runtime: progress, the current plan, the cancellation request
//! and the owner's source scope, and how each command changes them.
use vstd::prelude::*;
use crate::model::{
    Disposition, ResolutionPlan, ScanProgress, ScanRequest, SelectionType, STATUS_CANCELLED,
    is_idle_progress,
};
use crate::request::{request_error, validate_request};
use crate::text::{decimal, hex_lower, lemma_hex_lower_len, owned, push_decimal};

verus! {

/// What the running application remembers between commands.
#[derive(Debug, Clone)]
pub struct Runtime {
    pub progress: ScanProgress,
    pub plan: Option<ResolutionPlan>,
    pub cancel_requested: bool,
    pub source_scope: Vec<String>,
}

/// The runtime as the application starts it: idle, no plan, no
/// cancellation, no source scope.
pub fn runtime() -> (r: Runtime)
    ensures
        is_idle_progress(r.progress),
        r.plan is None,
        !r.cancel_requested,
        r.source_scope@.len() == 0,
{
    Runtime {
        progress: ScanProgress::default(),
        plan: None,
        cancel_requested: false,
        source_scope: Vec::new(),
    }
}

/// std's `PoisonError`: the lock of a holder that panicked, with its guard.
#[verifier::external_type_specification]
#[verifier::external_body]
#[verifier::reject_recursive_types(T)]
pub struct ExPoisonError<T>(std::sync::PoisonError<T>);

/// `PoisonError::into_inner`: the guard of a poisoned lock. Nothing is
/// stated of it.
#[verifier::external_body]
fn take_over<G>(poisoned: std::sync::PoisonError<G>) -> G {
    poisoned.into_inner()
}

/// The guard with which a command holds the shared runtime, given what
/// taking its lock gave: the guard, or, where an earlier holder panicked,
/// the guard of the poisoned lock, taken over as it is.
pub fn state<G>(lock: Result<G, std::sync::PoisonError<G>>) -> (guard: G)
    ensures
        lock is Ok ==> guard == lock->Ok_0,
{
    match lock {
        Ok(g) => g,
        Err(poisoned) => take_over(poisoned),
    }
}

/// An owned copy of an optional text.
pub fn copy_text_option(t: &Option<String>) -> (r: Option<String>)
    ensures
        r == *t,
{
    match t {
        Some(s) => Some(s.clone()),
        None => None,
    }
}

/// A copy of a list of texts.
pub fn copy_texts(v: &Vec<String>) -> (r: Vec<String>)
    ensures
        r@ == v@,
{
    let mut r: Vec<String> = Vec::new();
    let mut i: usize = 0;
    while i < v.len()
        invariant
            i <= v@.len(),
            r@ == v@.take(i as int),
        decreases v@.len() - i,
    {
        r.push(v[i].clone());
        i = i + 1;
        assert(r@ =~= v@.take(i as int));
    }
    assert(v@.take(v@.len() as int) =~= v@);
    r
}

/// A copy of a progress report.
pub fn copy_progress(p: &ScanProgress) -> (r: ScanProgress)
    ensures
        r == *p,
{
    ScanProgress {
        scanning: p.scanning,
        phase: p.phase.clone(),
        current: p.current,
        total: p.total,
        percentage: p.percentage,
        current_path: copy_text_option(&p.current_path),
        files_considered: p.files_considered,
        message: p.message.clone(),
        error: copy_text_option(&p.error),
    }
}

/// The current progress report.
pub fn get_scan_progress(runtime: &Runtime) -> (p: ScanProgress)
    ensures
        p == runtime.progress,
{
    copy_progress(&runtime.progress)
}

/// A scan phase's report: scanning, with the given phase, counts, current
/// path and message, the percentage held below 100 and the considered-file
/// count kept.
pub open spec fn scanning_progress(
    old_progress: ScanProgress,
    p: ScanProgress,
    phase: Seq<char>,
    current: u64,
    total: u64,
    percentage: u8,
    path: Option<String>,
    message: Seq<char>,
) -> bool {
    &&& p.scanning
    &&& p.phase@ == phase
    &&& p.current == current
    &&& p.total == total
    &&& p.percentage == if percentage < 99 { percentage } else { 99 }
    &&& p.current_path == path
    &&& p.files_considered == old_progress.files_considered
    &&& p.message@ == message
    &&& p.error is None
}

/// Reports a scan phase. Nothing but the progress changes.
pub fn update_progress(
    runtime: &mut Runtime,
    phase: &str,
    current: u64,
    total: u64,
    percentage: u8,
    path: Option<String>,
    message: &str,
)
    ensures
        scanning_progress(old(runtime).progress, final(runtime).progress, phase@, current, total, percentage, path, message@),
        final(runtime).plan == old(runtime).plan,
        final(runtime).cancel_requested == old(runtime).cancel_requested,
        final(runtime).source_scope == old(runtime).source_scope,
{
    let files_considered = runtime.progress.files_considered;
    runtime.progress = ScanProgress {
        scanning: true,
        phase: owned(phase),
        current,
        total,
        percentage: if percentage < 99 { percentage } else { 99 },
        current_path: path,
        files_considered,
        message: owned(message),
        error: None,
    };
}

pub const FAILED_PHASE: &'static str = "Failed";
pub const FAILED_MESSAGE: &'static str = "LumaSift stopped before changing any files.";

/// A report that a scan stopped on `error`: no longer scanning, no current
/// path, the counts kept.
pub open spec fn failed_progress(old_progress: ScanProgress, p: ScanProgress, error: Seq<char>) -> bool {
    &&& !p.scanning
    &&& p.phase@ == FAILED_PHASE@
    &&& p.current == old_progress.current
    &&& p.total == old_progress.total
    &&& p.percentage == old_progress.percentage
    &&& p.current_path is None
    &&& p.files_considered == old_progress.files_considered
    &&& p.message@ == FAILED_MESSAGE@
    &&& p.error matches Some(e) && e@ == error
}

/// Reports that the scan stopped on an error before changing any file.
pub fn fail_progress(runtime: &mut Runtime, message: String)
    ensures
        failed_progress(old(runtime).progress, final(runtime).progress, message@),
        final(runtime).plan == old(runtime).plan,
        final(runtime).cancel_requested == old(runtime).cancel_requested,
        final(runtime).source_scope == old(runtime).source_scope,
{
    runtime.progress.scanning = false;
    runtime.progress.phase = owned(FAILED_PHASE);
    runtime.progress.current_path = None;
    runtime.progress.error = Some(message);
    runtime.progress.message = owned(FAILED_MESSAGE);
}

pub const CANCELLED_PHASE: &'static str = "Cancelled";
pub const CANCELLED_MESSAGE: &'static str = "LumaSift cancelled before producing an actionable plan. No files changed.";

/// What the application draws for a record: the time, as RFC 3339 text,
/// and random bits for an identifier.
#[derive(Debug, Clone)]
pub struct Stamp {
    pub time: String,
    pub random: u128,
}

/// The bytes of the version-4 UUID made from the random bits `random`: their
/// big-endian bytes, with the version (4) in the high half of byte 6 and the
/// variant (binary 10) in the two high bits of byte 8.
pub open spec fn uuid_bytes(random: u128) -> Seq<u8> {
    Seq::new(
        16,
        |i: int|
            {
                let b = ((random >> ((8 * (15 - i)) as u128)) & 0xffu128) as u8;
                if i == 6 {
                    (b & 0x0fu8) | 0x40u8
                } else if i == 8 {
                    (b & 0x3fu8) | 0x80u8
                } else {
                    b
                }
            },
    )
}

/// The text of the version-4 UUID made from `random`: its bytes in
/// lower-case hexadecimal, in groups of 8, 4, 4, 4 and 12 digits joined by
/// hyphens.
pub open spec fn uuid_text(random: u128) -> Seq<char> {
    let h = hex_lower(uuid_bytes(random));
    h.subrange(0, 8) + seq!['-'] + h.subrange(8, 12) + seq!['-'] + h.subrange(12, 16) + seq!['-'] + h.subrange(
        16,
        20,
    ) + seq!['-'] + h.subrange(20, 32)
}

/// A UUID's text has 36 characters.
pub proof fn lemma_uuid_text_len(random: u128)
    ensures
        uuid_text(random).len() == 36,
{
    lemma_hex_lower_len(uuid_bytes(random));
}

/// uuid's `Builder::from_random_bytes(..).into_uuid().to_string()`: the
/// text of the version-4 UUID made from `random`.
#[verifier::external_body]
pub fn new_id(random: u128) -> (id: String)
    ensures
        id@ == uuid_text(random),
{
    uuid::Builder::from_random_bytes(random.to_be_bytes()).into_uuid().to_string()
}

/// A cancelled plan: no groups, nothing to reclaim or quarantine, the
/// dispositions recorded so far and the selected categories.
pub open spec fn is_cancelled_plan(
    plan: ResolutionPlan,
    dispositions: Seq<Disposition>,
    selected_types: Seq<SelectionType>,
) -> bool {
    &&& plan.status@ == STATUS_CANCELLED@
    &&& plan.selected_types@ == selected_types
    &&& plan.groups@.len() == 0
    &&& plan.reclaimable_bytes == 0
    &&& plan.queued_file_count == 0
    &&& plan.dispositions@ == dispositions
}

/// `after` is `before` with the scan ended on the owner's cancellation: no
/// longer scanning, no current path, a cancellation message, the counts
/// kept, and a cancelled plan of `dispositions` and `selected`, identified
/// and dated by `stamp`.
pub open spec fn cancelled_with(
    before: Runtime,
    after: Runtime,
    dispositions: Seq<Disposition>,
    selected: Seq<SelectionType>,
    stamp: Stamp,
) -> bool {
    &&& !after.progress.scanning
    &&& after.progress.phase@ == CANCELLED_PHASE@
    &&& after.progress.current_path is None
    &&& after.progress.message@ == CANCELLED_MESSAGE@
    &&& after.progress.current == before.progress.current
    &&& after.progress.total == before.progress.total
    &&& after.progress.percentage == before.progress.percentage
    &&& after.progress.files_considered == before.progress.files_considered
    &&& after.progress.error == before.progress.error
    &&& after.plan matches Some(p) && is_cancelled_plan(p, dispositions, selected) && p.id@ == uuid_text(stamp.random)
        && p.created_at == stamp.time
    &&& after.cancel_requested == before.cancel_requested
    &&& after.source_scope == before.source_scope
}

/// Ends a scan on the owner's cancellation.
pub fn cancel_plan(
    runtime: &mut Runtime,
    dispositions: Vec<Disposition>,
    selected_types: Vec<SelectionType>,
    stamp: Stamp,
)
    ensures
        cancelled_with(*old(runtime), *final(runtime), dispositions@, selected_types@, stamp),
{
    runtime.progress.scanning = false;
    runtime.progress.phase = owned(CANCELLED_PHASE);
    runtime.progress.current_path = None;
    runtime.progress.message = owned(CANCELLED_MESSAGE);
    runtime.plan = Some(ResolutionPlan {
        id: new_id(stamp.random),
        status: owned(STATUS_CANCELLED),
        selected_types,
        created_at: stamp.time,
        groups: Vec::new(),
        reclaimable_bytes: 0,
        queued_file_count: 0,
        dispositions,
    });
}

pub const ALREADY_SCANNING: &'static str = "A LumaSift scan is already in progress.";
pub const INDEXING_PHASE: &'static str = "Indexing sources";
pub const START_MESSAGE: &'static str = "Enumerating selected sources in the background. The workspace remains responsive.";

/// The report with which a scan starts.
pub open spec fn is_start_progress(p: ScanProgress) -> bool {
    &&& p.scanning
    &&& p.phase@ == INDEXING_PHASE@
    &&& p.current == 0
    &&& p.total == 0
    &&& p.percentage == 1
    &&& p.current_path is None
    &&& p.files_considered == 0
    &&& p.message@ == START_MESSAGE@
    &&& p.error is None
}

/// The checks of the start command before it looks up the data directory:
/// a valid request, and no scan running.
pub fn start_resolution(runtime: &Runtime, request: &ScanRequest) -> (r: Result<(), String>)
    ensures
        r is Ok <==> request_error(*request) is None && !runtime.progress.scanning,
        r matches Err(e) ==> (request_error(*request) matches Some(m) ==> e@ == m),
        r matches Err(e) ==> (request_error(*request) is None ==> e@ == ALREADY_SCANNING@),
{
    validate_request(request)?;
    if runtime.progress.scanning {
        return Err(owned(ALREADY_SCANNING));
    }
    Ok(())
}

/// Starts a scan: the request must be valid and no scan may be running (a
/// refused start changes nothing); then the request's sources become the
/// owner's scope, any cancellation is cleared, the plan dropped, and the
/// starting report both recorded and returned.
pub fn start_scan(runtime: &mut Runtime, request: &ScanRequest) -> (r: Result<ScanProgress, String>)
    ensures
        request_error(*request) matches Some(m) ==> (r matches Err(e) && e@ == m && *final(runtime) == *old(runtime)),
        request_error(*request) is None && old(runtime).progress.scanning ==> {
            &&& r matches Err(e) && e@ == ALREADY_SCANNING@
            &&& *final(runtime) == *old(runtime)
        },
        request_error(*request) is None && !old(runtime).progress.scanning ==> {
            &&& r matches Ok(p) && p == final(runtime).progress
            &&& is_start_progress(final(runtime).progress)
            &&& final(runtime).plan is None
            &&& !final(runtime).cancel_requested
            &&& final(runtime).source_scope@ == request.sources@
        },
{
    validate_request(request)?;
    if runtime.progress.scanning {
        return Err(owned(ALREADY_SCANNING));
    }
    runtime.source_scope = copy_texts(&request.sources);
    runtime.cancel_requested = false;
    runtime.progress = ScanProgress {
        scanning: true,
        phase: owned(INDEXING_PHASE),
        current: 0,
        total: 0,
        percentage: 1,
        current_path: None,
        files_considered: 0,
        message: owned(START_MESSAGE),
        error: None,
    };
    runtime.plan = None;
    Ok(copy_progress(&runtime.progress))
}

pub const WORKER_FAILED_PREFIX: &'static str = "Unable to start LumaSift worker: ";

/// Records that the scan's worker could not start, and gives the error.
pub fn worker_failed(runtime: &mut Runtime, error: &str) -> (message: String)
    ensures
        message@ == WORKER_FAILED_PREFIX@ + error@,
        failed_progress(old(runtime).progress, final(runtime).progress, message@),
        final(runtime).plan == old(runtime).plan,
        final(runtime).cancel_requested == old(runtime).cancel_requested,
        final(runtime).source_scope == old(runtime).source_scope,
{
    let mut message = owned(WORKER_FAILED_PREFIX);
    message.append(error);
    fail_progress(runtime, message.clone());
    message
}

pub const NOT_SCANNING: &'static str = "No LumaSift scan is active.";

/// Asks a running scan to stop; refused when none runs.
pub fn cancel_resolution(runtime: &mut Runtime) -> (r: Result<(), String>)
    ensures
        r is Ok <==> old(runtime).progress.scanning,
        r matches Err(e) ==> e@ == NOT_SCANNING@,
        r is Ok ==> final(runtime).cancel_requested,
        r is Err ==> final(runtime).cancel_requested == old(runtime).cancel_requested,
        final(runtime).progress == old(runtime).progress,
        final(runtime).plan == old(runtime).plan,
        final(runtime).source_scope == old(runtime).source_scope,
{
    if !runtime.progress.scanning {
        return Err(owned(NOT_SCANNING));
    }
    runtime.cancel_requested = true;
    Ok(())
}

/// The sources that the owner last asked to scan.
pub fn owner_source_scope(runtime: &Runtime) -> (scope: &Vec<String>)
    ensures
        scope@ == runtime.source_scope@,
{
    &runtime.source_scope
}

/// A copy of the sources that the owner last asked to scan, which the
/// companion service scans.
pub fn configured_sources(runtime: &Runtime) -> (sources: Vec<String>)
    ensures
        sources@ == runtime.source_scope@,
{
    copy_texts(&runtime.source_scope)
}

pub const INDEXING_MESSAGE: &'static str = "Walking selected sources in the background. No files will be changed.";
pub const INDEXING_CANCELLED: &'static str = "LumaSift scan cancelled while indexing sources.";

/// The walk met its `visited`-th entry: every 32nd is reported; a requested
/// cancellation stops the walk.
pub fn indexing_visit(runtime: &mut Runtime, visited: u64, path: String) -> (r: Result<(), String>)
    ensures
        r is Ok <==> !old(runtime).cancel_requested,
        r matches Err(e) ==> e@ == INDEXING_CANCELLED@,
        visited % 32 == 0 ==> scanning_progress(old(runtime).progress, final(runtime).progress,
            INDEXING_PHASE@, visited, 0, 1, Some(path), INDEXING_MESSAGE@),
        visited % 32 != 0 ==> final(runtime).progress == old(runtime).progress,
        final(runtime).plan == old(runtime).plan,
        final(runtime).cancel_requested == old(runtime).cancel_requested,
        final(runtime).source_scope == old(runtime).source_scope,
{
    if visited % 32 == 0 {
        update_progress(runtime, INDEXING_PHASE, visited, 0, 1, Some(path), INDEXING_MESSAGE);
    }
    if runtime.cancel_requested {
        return Err(owned(INDEXING_CANCELLED));
    }
    Ok(())
}

pub const NOT_A_DIRECTORY: &'static str = "LumaSift source is not an accessible directory: ";

/// The error for a source that is not an accessible directory.
pub fn source_not_directory(source: &str) -> (e: String)
    ensures
        e@ == NOT_A_DIRECTORY@ + source@,
{
    let mut e = owned(NOT_A_DIRECTORY);
    e.append(source);
    e
}

pub const INDEXED_PHASE: &'static str = "Indexing complete";
pub const INDEXED_PREFIX: &'static str = "Indexed ";
pub const INDEXED_SUFFIX: &'static str = " eligible files. Beginning sampled content proof.";

/// Reports the end of indexing, with the number of eligible files.
pub fn indexing_complete(runtime: &mut Runtime, total: u64)
    ensures
        scanning_progress(old(runtime).progress, final(runtime).progress, INDEXED_PHASE@, 0, total, 2,
            None, INDEXED_PREFIX@ + decimal(total as nat) + INDEXED_SUFFIX@),
        final(runtime).plan == old(runtime).plan,
        final(runtime).cancel_requested == old(runtime).cancel_requested,
        final(runtime).source_scope == old(runtime).source_scope,
{
    let mut message = owned(INDEXED_PREFIX);
    push_decimal(&mut message, total);
    message.append(INDEXED_SUFFIX);
    update_progress(runtime, INDEXED_PHASE, 0, total, 2, None, message.as_str());
}

/// While a scan runs its report never claims completion: every report of a
/// scan phase is below 100 percent.
pub proof fn lemma_scanning_below_complete(
    old_progress: ScanProgress,
    p: ScanProgress,
    phase: Seq<char>,
    current: u64,
    total: u64,
    percentage: u8,
    path: Option<String>,
    message: Seq<char>,
)
    requires
        scanning_progress(old_progress, p, phase, current, total, percentage, path, message),
    ensures
        p.scanning,
        p.percentage < 100,
{
}

} // verus!
