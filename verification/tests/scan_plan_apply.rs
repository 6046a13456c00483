use lumasift::apply::{
    begin_apply, count_queued, move_step, unique_destination, Destination, MoveEvent, MoveStep, CONTENT_CHANGED,
    NO_DESTINATION, NO_PLAN, OVERWRITE_REFUSED, QUARANTINED_DETAIL, STALE_PLAN,
};
use lumasift::digest::FullHash;
use lumasift::group::{group_by_key, KeyedFile};
use lumasift::index::{eligible_files, source_files, EligibleFile, ScannedEntry};
use lumasift::model::{
    Disposition, IndexedFile, ResolutionPlan, ScanProgress, ScanRequest, SelectionType, FAILED, QUARANTINED,
    QUEUED_FOR_QUARANTINE, RETAIN, STATUS_APPLIED, STATUS_CANCELLED, STATUS_PARTIAL, STATUS_READY,
};
use lumasift::path::{FilePath, PartKind, PathPart};
use lumasift::phases::{Sampling, REVIEW_PHASE};
use lumasift::plan::{evidence, rank_group, QUEUED_DETAIL, RETAIN_DETAIL, TIE_REASON};
use lumasift::runtime::{
    Stamp,
    cancel_resolution, configured_sources, fail_progress, get_scan_progress, indexing_complete, indexing_visit,
    owner_source_scope, runtime, source_not_directory, start_resolution, start_scan, update_progress,
    worker_failed, ALREADY_SCANNING, CANCELLED_PHASE, FAILED_PHASE, INDEXING_CANCELLED, NOT_SCANNING,
};
use std::path::{Component, Path};

fn file_path(text: &str) -> FilePath {
    let mut parts = Vec::new();
    for component in Path::new(text).components() {
        let (kind, first) = match component {
            Component::RootDir => (PartKind::RootDir, Vec::new()),
            Component::CurDir => (PartKind::CurDir, Vec::new()),
            Component::ParentDir => (PartKind::ParentDir, Vec::new()),
            Component::Normal(name) => (PartKind::Normal, name.as_encoded_bytes().to_vec()),
            Component::Prefix(_) => panic!("no prefixes in these tests"),
        };
        parts.push(PathPart { kind, first, second: Vec::new(), shown: component.as_os_str().to_string_lossy().into_owned() });
    }
    FilePath { text: text.to_string(), parts, encoded: text.as_bytes().to_vec() }
}

fn indexed(text: &str, bytes: u64) -> IndexedFile {
    IndexedFile { path: file_path(text), media_kind: "video".to_string(), bytes }
}

fn hasher_of(content: &str) -> FullHash {
    let mut h = FullHash::new();
    h.absorb(content.as_bytes());
    h
}

fn digest_of(content: &str) -> String {
    hasher_of(content).finish()
}

fn stamp(n: u128) -> Stamp {
    Stamp { time: format!("2024-01-01T00:00:{:02}+00:00", n % 60), random: n }
}

fn stamps(count: usize) -> Vec<Stamp> {
    (0..count).map(|i| stamp(1000 + i as u128)).collect()
}

fn keyed(text: &str, bytes: u64, digest: &str, position: usize) -> KeyedFile {
    KeyedFile { size: 0, digest: digest.to_string(), position, file: indexed(text, bytes) }
}

#[test]
fn runtime_starts_idle() {
    let r = runtime();
    assert!(!r.progress.scanning);
    assert_eq!(r.progress.phase, "Ready");
    assert_eq!(r.progress.percentage, 0);
    assert!(r.plan.is_none());
    assert!(!r.cancel_requested);
    assert!(r.source_scope.is_empty());
    let p = ScanProgress::default();
    assert!(p.message.starts_with("Choose sources and file types."));
}

#[test]
fn start_scan_records_scope_and_refuses_a_second_scan() {
    let mut r = runtime();
    let request = ScanRequest { sources: vec!["D:\\Photos".to_string()], selected_types: vec![SelectionType::Image] };
    assert_eq!(start_resolution(&r, &request), Ok(()));
    let progress = start_scan(&mut r, &request).unwrap();
    assert!(progress.scanning);
    assert_eq!(progress.phase, "Indexing sources");
    assert_eq!(progress.percentage, 1);
    assert_eq!(owner_source_scope(&r), &vec!["D:\\Photos".to_string()]);
    assert_eq!(start_resolution(&r, &request), Err(ALREADY_SCANNING.to_string()));
    let other = ScanRequest { sources: vec!["E:\\".to_string()], selected_types: vec![SelectionType::Audio] };
    assert_eq!(start_scan(&mut r, &other).err(), Some(ALREADY_SCANNING.to_string()));
    assert_eq!(configured_sources(&r), vec!["D:\\Photos".to_string()]);
    let invalid = ScanRequest { sources: vec![], selected_types: vec![SelectionType::Audio] };
    assert!(start_scan(&mut r, &invalid).is_err());
    assert_eq!(configured_sources(&r), vec!["D:\\Photos".to_string()]);
}

#[test]
fn cancellation_needs_a_running_scan() {
    let mut r = runtime();
    assert_eq!(cancel_resolution(&mut r), Err(NOT_SCANNING.to_string()));
    assert!(!r.cancel_requested);
    let request = ScanRequest { sources: vec!["D:\\".to_string()], selected_types: vec![SelectionType::Video] };
    start_scan(&mut r, &request).unwrap();
    assert_eq!(cancel_resolution(&mut r), Ok(()));
    assert!(r.cancel_requested);
    assert_eq!(indexing_visit(&mut r, 5, "D:\\a".to_string()), Err(INDEXING_CANCELLED.to_string()));
}

#[test]
fn progress_reports_stay_below_completion() {
    let mut r = runtime();
    r.progress.files_considered = 7;
    update_progress(&mut r, "Sampling content", 3, 4, 250, Some("x".to_string()), "working");
    assert!(r.progress.scanning);
    assert_eq!(r.progress.percentage, 99);
    assert_eq!(r.progress.files_considered, 7);
    assert_eq!(r.progress.current_path.as_deref(), Some("x"));
    update_progress(&mut r, "Sampling content", 3, 4, 45, None, "working");
    assert_eq!(r.progress.percentage, 45);
    assert_eq!(get_scan_progress(&r).percentage, 45);
}

#[test]
fn indexing_reports_every_thirty_second_entry() {
    let mut r = runtime();
    assert_eq!(indexing_visit(&mut r, 31, "a".to_string()), Ok(()));
    assert_eq!(r.progress.phase, "Ready");
    assert_eq!(indexing_visit(&mut r, 64, "b".to_string()), Ok(()));
    assert_eq!(r.progress.phase, "Indexing sources");
    assert_eq!(r.progress.current, 64);
    indexing_complete(&mut r, 12);
    assert_eq!(r.progress.message, "Indexed 12 eligible files. Beginning sampled content proof.");
    assert_eq!(r.progress.percentage, 2);
    assert_eq!(source_not_directory("Z:\\gone"), "LumaSift source is not an accessible directory: Z:\\gone");
}

#[test]
fn failures_stop_the_scan() {
    let mut r = runtime();
    let request = ScanRequest { sources: vec!["D:\\".to_string()], selected_types: vec![SelectionType::Video] };
    start_scan(&mut r, &request).unwrap();
    fail_progress(&mut r, "disk vanished".to_string());
    assert!(!r.progress.scanning);
    assert_eq!(r.progress.phase, FAILED_PHASE);
    assert_eq!(r.progress.error.as_deref(), Some("disk vanished"));
    assert_eq!(r.progress.message, "LumaSift stopped before changing any files.");
    let message = worker_failed(&mut r, "no threads");
    assert_eq!(message, "Unable to start LumaSift worker: no threads");
    assert_eq!(r.progress.error.as_deref(), Some("Unable to start LumaSift worker: no threads"));
}

#[test]
fn eligible_files_are_sorted_deduplicated_and_outside_app_data() {
    let entry = |p: &str, is_file: bool| ScannedEntry { path: file_path(p), is_file };
    let entries = vec![
        entry("/m/b.mp4", true),
        entry("/m/a.mp3", true),
        entry("/m/dir", false),
        entry("/app/data/c.mp4", true),
        entry("/m/b.mp4", true),
        entry("/m/notes.txt", true),
        entry("/m/a.mp4", true),
    ];
    let files = eligible_files(entries, &file_path("/app/data"), &vec![SelectionType::Video]);
    let names: Vec<&str> = files.iter().map(|f| f.path.text.as_str()).collect();
    assert_eq!(names, vec!["/m/a.mp4", "/m/b.mp4"]);
    assert!(files.iter().all(|f| f.media_kind == "video"));
}

#[test]
fn source_files_keep_readable_sizes() {
    let files = vec![
        EligibleFile { path: file_path("/m/a.mp4"), media_kind: "video".to_string() },
        EligibleFile { path: file_path("/m/b.mp4"), media_kind: "video".to_string() },
        EligibleFile { path: file_path("/m/c.mp4"), media_kind: "video".to_string() },
    ];
    let out = source_files(files, vec![Some(10), None, Some(0)]);
    assert_eq!(out.len(), 2);
    assert_eq!(out[0].path.text, "/m/a.mp4");
    assert_eq!(out[0].bytes, 10);
    assert_eq!(out[1].path.text, "/m/c.mp4");
    assert_eq!(out[1].bytes, 0);
}

#[test]
fn evidence_records_size_and_tie_rule() {
    let q = evidence(&indexed("/m/a.mp4", 2048));
    assert_eq!(q.file_size_bytes, 2048);
    assert_eq!(q.reasons, vec!["2048 exact-content bytes".to_string(), TIE_REASON.to_string()]);
    assert_eq!(q.width, None);
    assert_eq!(q.pixel_count, 0);
}

#[test]
fn grouping_gathers_equal_keys_in_key_order() {
    let items = vec![
        KeyedFile { size: 5, digest: "bb".to_string(), position: 0, file: indexed("/a", 5) },
        KeyedFile { size: 5, digest: "aa".to_string(), position: 1, file: indexed("/b", 5) },
        KeyedFile { size: 5, digest: "bb".to_string(), position: 2, file: indexed("/c", 5) },
        KeyedFile { size: 3, digest: "bb".to_string(), position: 3, file: indexed("/d", 3) },
    ];
    let groups = group_by_key(items);
    let shape: Vec<Vec<&str>> =
        groups.iter().map(|g| g.iter().map(|k| k.file.path.text.as_str()).collect()).collect();
    assert_eq!(shape, vec![vec!["/d"], vec!["/b"], vec!["/a", "/c"]]);
}

#[test]
fn ranking_retains_the_largest_then_first_path() {
    let files = vec![keyed("/m/z.mp4", 100, "h", 0), keyed("/m/b.mp4", 100, "h", 1), keyed("/m/a.mp4", 100, "h", 2)];
    let mut dispositions: Vec<Disposition> = Vec::new();
    let (group, _, queued) = rank_group(files, &mut dispositions, &stamps(4));
    assert_eq!(queued, 2);
    assert_eq!(group.candidates.len(), 3);
    assert_eq!(group.candidates[0].file_path, "/m/a.mp4");
    assert_eq!(group.candidates[1].file_path, "/m/b.mp4");
    assert_eq!(group.candidates[2].file_path, "/m/z.mp4");
    assert_eq!(group.winner_id, group.candidates[0].id);
    assert_eq!(group.candidates[0].disposition, RETAIN);
    assert_eq!(group.candidates[0].disposition_detail, RETAIN_DETAIL);
    assert_eq!(group.candidates[1].disposition, QUEUED_FOR_QUARANTINE);
    assert_eq!(group.candidates[2].disposition_detail, QUEUED_DETAIL);
    assert_eq!(group.reclaimable_bytes, 200);
    assert_eq!(group.exact_hash, "h");
    assert_eq!(dispositions.len(), 3);
    assert_eq!(dispositions[0].file_path, "/m/a.mp4");
    assert_eq!(dispositions[0].display_name, "a.mp4");
    assert_eq!(dispositions[2].disposition, QUEUED_FOR_QUARANTINE);
}

#[test]
fn ranking_prefers_larger_copies() {
    let files = vec![keyed("/m/a.mp4", 10, "h", 0), keyed("/m/b.mp4", 30, "h", 1)];
    let mut dispositions: Vec<Disposition> = Vec::new();
    let (group, _, _) = rank_group(files, &mut dispositions, &stamps(3));
    assert_eq!(group.candidates[0].file_path, "/m/b.mp4");
    assert_eq!(group.reclaimable_bytes, 10);
}

fn build_plan(files: Vec<IndexedFile>, sampled: &[Result<&str, &str>], full: &[Result<&str, &str>]) -> lumasift::runtime::Runtime {
    let mut r = runtime();
    let mut sampling = Sampling::new(files, vec![SelectionType::Video]);
    for outcome in sampled {
        assert!(sampling.current().is_some());
        sampling = sampling.proceed(&mut r, stamp(1)).unwrap();
        assert!(r.progress.percentage < 100);
        sampling.record(outcome.map(|c| (c.as_bytes().to_vec(), Vec::new())).map_err(str::to_string), stamp(2).time);
    }
    assert!(sampling.current().is_none());
    let mut verifying = sampling.finish();
    for outcome in full {
        assert!(verifying.current().is_some());
        verifying = verifying.proceed(&mut r, stamp(3)).unwrap();
        assert!(r.progress.percentage >= 60 && r.progress.percentage < 100);
        verifying.record(outcome.map(hasher_of).map_err(str::to_string), stamp(4).time);
    }
    assert!(verifying.current().is_none());
    let mut ranking = verifying.finish();
    while ranking.has_next() {
        ranking = ranking.proceed(&mut r, stamp(5)).unwrap();
        let n = ranking.next_group_len();
        ranking.rank_next(&mut r, &stamps(n + 1));
        assert!(r.progress.percentage >= 90 && r.progress.percentage < 100);
    }
    ranking.finish(&mut r, stamp(6));
    r
}

#[test]
fn a_scan_plans_only_exact_groups() {
    let files = vec![indexed("/m/a.mp4", 10), indexed("/m/b.mp4", 10), indexed("/m/c.mp4", 10), indexed("/m/d.mp4", 20)];
    // a, b and c share a sample; of those, a and c share a full digest, b does not.
    let r = build_plan(files, &[Ok("s1"), Ok("s1"), Ok("s1"), Ok("s2")], &[Ok("f1"), Ok("f2"), Ok("f1")]);
    assert!(!r.progress.scanning);
    assert_eq!(r.progress.phase, REVIEW_PHASE);
    assert_eq!(r.progress.percentage, 100);
    assert_eq!(r.progress.files_considered, 4);
    assert_eq!(r.progress.message, "1 exact duplicate groups are ready for review. 1 files are queued for quarantine.");
    let plan = r.plan.unwrap();
    assert_eq!(plan.status, STATUS_READY);
    assert_eq!(plan.groups.len(), 1);
    assert_eq!(plan.queued_file_count, 1);
    assert_eq!(plan.reclaimable_bytes, 10);
    let paths: Vec<&str> = plan.groups[0].candidates.iter().map(|c| c.file_path.as_str()).collect();
    assert_eq!(paths, vec!["/m/a.mp4", "/m/c.mp4"]);
    assert_eq!(plan.groups[0].exact_hash, digest_of("f1"));
    assert_eq!(plan.groups[0].exact_hash.len(), 64);
    assert_eq!(plan.selected_types, vec![SelectionType::Video]);
}

#[test]
fn unreadable_files_are_skipped_with_their_error() {
    let files = vec![indexed("/m/a.mp4", 10), indexed("/m/b.mp4", 10), indexed("/m/c.mp4", 10)];
    let r = build_plan(files, &[Ok("s"), Err("Unable to open /m/b.mp4"), Ok("s")], &[Ok("f"), Err("Unable to read /m/c.mp4")]);
    let plan = r.plan.unwrap();
    assert_eq!(plan.groups.len(), 0);
    assert_eq!(plan.queued_file_count, 0);
    assert_eq!(plan.dispositions.len(), 2);
    assert_eq!(plan.dispositions[0].disposition, "skipped");
    assert_eq!(plan.dispositions[0].detail, "Unable to open /m/b.mp4");
    assert_eq!(plan.dispositions[1].file_path, "/m/c.mp4");
    assert_eq!(r.progress.message, "0 exact duplicate groups are ready for review. 0 files are queued for quarantine.");
}

#[test]
fn cancelling_a_phase_leaves_no_actionable_plan() {
    let mut r = runtime();
    let mut sampling = Sampling::new(vec![indexed("/m/a.mp4", 1), indexed("/m/b.mp4", 1)], vec![SelectionType::Video]);
    sampling.record(Err("Unable to open /m/a.mp4".to_string()), stamp(7).time);
    r.cancel_requested = true;
    assert!(sampling.proceed(&mut r, stamp(8)).is_none());
    assert!(!r.progress.scanning);
    assert_eq!(r.progress.phase, CANCELLED_PHASE);
    let plan = r.plan.unwrap();
    assert_eq!(plan.status, STATUS_CANCELLED);
    assert!(plan.groups.is_empty());
    assert_eq!(plan.queued_file_count, 0);
    assert_eq!(plan.dispositions.len(), 1);
    assert_eq!(plan.dispositions[0].occurred_at, stamp(7).time);
    assert_eq!(plan.selected_types, vec![SelectionType::Video]);
    assert_eq!(plan.id, "00000000-0000-4000-8000-000000000008");
    assert_eq!(plan.created_at, stamp(8).time);
}

#[test]
fn a_cancel_between_groups_ends_ranking() {
    let mut r = runtime();
    let mut sampling = Sampling::new(vec![indexed("/m/a.mp4", 1), indexed("/m/b.mp4", 1)], vec![SelectionType::Video]);
    while sampling.current().is_some() {
        sampling = sampling.proceed(&mut r, stamp(1)).unwrap();
        sampling.record(Ok((b"s".to_vec(), Vec::new())), stamp(2).time);
    }
    let mut verifying = sampling.finish();
    while verifying.current().is_some() {
        verifying = verifying.proceed(&mut r, stamp(3)).unwrap();
        verifying.record(Ok(hasher_of("f")), stamp(4).time);
    }
    let ranking = verifying.finish();
    assert!(ranking.has_next());
    r.cancel_requested = true;
    assert!(ranking.proceed(&mut r, stamp(5)).is_none());
    let plan = r.plan.unwrap();
    assert_eq!(plan.status, STATUS_CANCELLED);
    assert!(plan.groups.is_empty());
}

fn ready_plan() -> ResolutionPlan {
    let files = vec![indexed("/m/a.mp4", 10), indexed("/m/b.mp4", 10), indexed("/m/c.mp4", 10)];
    let r = build_plan(files, &[Ok("s"), Ok("s"), Ok("s")], &[Ok("f"), Ok("f"), Ok("f")]);
    r.plan.unwrap()
}

#[test]
fn application_needs_the_reviewed_ready_plan() {
    assert_eq!(begin_apply(None, "x").err(), Some(NO_PLAN.to_string()));
    let plan = ready_plan();
    assert_eq!(begin_apply(Some(plan.clone()), "other-id").err(), Some(STALE_PLAN.to_string()));
    let mut applied = plan.clone();
    applied.status = STATUS_APPLIED.to_string();
    let id = applied.id.clone();
    assert_eq!(begin_apply(Some(applied), &id).err(), Some(STALE_PLAN.to_string()));
}

#[test]
fn application_moves_verified_copies_and_leaves_the_rest() {
    let plan = ready_plan();
    assert_eq!(count_queued(&plan.groups), 2);
    let id = plan.id.clone();
    let before = plan.dispositions.len();
    let mut applying = begin_apply(Some(plan), &id).unwrap();
    // the first queued copy is unchanged and moves
    let first = applying.current().unwrap().clone();
    assert_eq!(first.file_path, "/m/b.mp4");
    assert_eq!(applying.verify_content(&digest_of("f")), Ok(()));
    applying.record(Ok("/q/b.mp4".to_string()), &file_path(&first.file_path), stamp(9).time);
    // the second changed since review and stays
    let second = applying.current().unwrap().clone();
    assert_eq!(second.file_path, "/m/c.mp4");
    let changed = applying.verify_content("other");
    assert_eq!(changed, Err(CONTENT_CHANGED.to_string()));
    applying.record(Err(CONTENT_CHANGED.to_string()), &file_path(&second.file_path), stamp(10).time);
    assert!(applying.current().is_none());
    let mut r = runtime();
    applying.finish(&mut r);
    assert_eq!(r.progress.message, "LumaSift quarantined 1 file(s); 1 file(s) remained in place.");
    let plan = r.plan.unwrap();
    assert_eq!(plan.status, STATUS_PARTIAL);
    assert_eq!(plan.queued_file_count, 0);
    let c = &plan.groups[0].candidates;
    assert_eq!(c[0].disposition, RETAIN);
    assert_eq!(c[1].disposition, QUARANTINED);
    assert_eq!(c[1].disposition_detail, QUARANTINED_DETAIL);
    assert_eq!(c[1].quarantine_path.as_deref(), Some("/q/b.mp4"));
    assert_eq!(c[2].disposition, FAILED);
    assert_eq!(c[2].disposition_detail, CONTENT_CHANGED);
    assert_eq!(c[2].quarantine_path, None);
    assert_eq!(plan.dispositions.len(), before + 2);
    assert_eq!(plan.dispositions[before].disposition, QUARANTINED);
    assert_eq!(plan.dispositions[before].display_name, "b.mp4");
    assert_eq!(plan.dispositions[before + 1].detail, CONTENT_CHANGED);
}

#[test]
fn a_clean_application_is_complete() {
    let plan = ready_plan();
    let id = plan.id.clone();
    let mut applying = begin_apply(Some(plan), &id).unwrap();
    while let Some(copy) = applying.current().cloned() {
        assert_eq!(applying.verify_content(&copy.exact_hash), Ok(()));
        applying.record(Ok(format!("/q/{}", copy.display_name)), &file_path(&copy.file_path), stamp(11).time);
    }
    let mut r = runtime();
    applying.finish(&mut r);
    let plan = r.plan.unwrap();
    assert_eq!(plan.status, STATUS_APPLIED);
    assert_eq!(plan.queued_file_count, 0);
    assert_eq!(r.progress.message, "LumaSift quarantined 2 file(s); 0 file(s) remained in place.");
}

#[test]
fn destinations_keep_the_name_then_number_it() {
    let source = file_path("/m/holiday.mp4");
    assert!(matches!(unique_destination(&source, 0), Ok(Destination::SameName)));
    assert!(matches!(unique_destination(&source, 1), Ok(Destination::Renamed(n)) if n == "holiday (1).mp4"));
    assert!(matches!(unique_destination(&source, 10000), Ok(Destination::Renamed(n)) if n == "holiday (10000).mp4"));
    assert!(matches!(unique_destination(&source, 10001), Err(e) if e == NO_DESTINATION));
    assert!(matches!(unique_destination(&file_path("/m/README"), 2), Ok(Destination::Renamed(n)) if n == "README (2)"));
    assert!(matches!(unique_destination(&file_path("/m/name."), 3), Ok(Destination::Renamed(n)) if n == "name (3)"));
    assert!(matches!(unique_destination(&file_path("/m/.profile"), 1), Ok(Destination::Renamed(n)) if n == ".profile (1)"));
    assert!(matches!(unique_destination(&file_path("/"), 0), Err(e) if e == "Source path has no name: /"));
}

#[test]
fn moves_never_overwrite_and_fall_back_to_copying() {
    assert!(matches!(move_step("a.mp4", MoveEvent::DestinationChecked { exists: true }), MoveStep::Finish(Err(e)) if e == OVERWRITE_REFUSED));
    assert!(matches!(move_step("a.mp4", MoveEvent::DestinationChecked { exists: false }), MoveStep::Rename));
    assert!(matches!(move_step("a.mp4", MoveEvent::Renamed(Ok(()))), MoveStep::Finish(Ok(()))));
    assert!(matches!(move_step("a.mp4", MoveEvent::Renamed(Err("cross-device".to_string()))), MoveStep::Copy { rename_error } if rename_error == "cross-device"));
    assert!(matches!(
        move_step("a.mp4", MoveEvent::Copied { rename_error: "cross-device".to_string(), result: Err("disk full".to_string()) }),
        MoveStep::Finish(Err(e)) if e == "Could not move a.mp4 (cross-device); copy fallback failed: disk full"
    ));
    assert!(matches!(move_step("a.mp4", MoveEvent::Copied { rename_error: "x".to_string(), result: Ok(()) }), MoveStep::RemoveSource));
    assert!(matches!(move_step("a.mp4", MoveEvent::SourceRemoved(Ok(()))), MoveStep::Finish(Ok(()))));
    assert!(matches!(
        move_step("a.mp4", MoveEvent::SourceRemoved(Err("locked".to_string()))),
        MoveStep::RemoveCopy(e) if e == "Copied a.mp4 but could not remove its original: locked"
    ));
}

#[test]
fn a_plan_counts_its_queued_copies() {
    let files = vec![indexed("/m/a.mp4", 5), indexed("/m/b.mp4", 5), indexed("/m/c.mp4", 7), indexed("/m/d.mp4", 7), indexed("/m/e.mp4", 7)];
    let r = build_plan(
        files,
        &[Ok("s"), Ok("s"), Ok("t"), Ok("t"), Ok("t")],
        &[Ok("f"), Ok("f"), Ok("g"), Ok("g"), Ok("g")],
    );
    let plan = r.plan.unwrap();
    assert_eq!(plan.groups.len(), 2);
    assert_eq!(plan.queued_file_count, 3);
    assert_eq!(count_queued(&plan.groups), plan.queued_file_count);
    assert_eq!(plan.reclaimable_bytes, 5 + 14);
    assert_ne!(plan.groups[0].exact_hash, plan.groups[1].exact_hash);
    for group in &plan.groups {
        assert!(group.candidates.len() >= 2);
        assert!(group.candidates.iter().all(|c| c.exact_hash == group.exact_hash));
        assert_eq!(group.candidates.iter().filter(|c| c.disposition == RETAIN).count(), 1);
    }
}

#[test]
fn a_poisoned_runtime_lock_is_taken_over() {
    assert_eq!(lumasift::runtime::state::<u32>(Ok(5)), 5);
    assert_eq!(lumasift::runtime::state::<u32>(Err(std::sync::PoisonError::new(7))), 7);
}

#[test]
fn one_copy_is_retained_even_under_equal_ids() {
    let files = vec![keyed("/m/b.mp4", 8, "h", 0), keyed("/m/a.mp4", 8, "h", 1)];
    let mut dispositions: Vec<Disposition> = Vec::new();
    let (group, _, queued) = rank_group(files, &mut dispositions, &vec![stamp(1); 3]);
    assert_eq!(group.candidates[0].id, group.candidates[1].id);
    assert_eq!(group.candidates[0].disposition, RETAIN);
    assert_eq!(group.candidates[1].disposition, QUEUED_FOR_QUARANTINE);
    assert_eq!(queued, 1);
    assert_eq!(dispositions[1].occurred_at, stamp(1).time);
}
