use reforger_language_server::analysis_runtime::{
    AdmissionDisposition, AdmissionLimits, AnalysisRuntime, DocumentSnapshot, DocumentStore, Position,
    PositionIndex, QueryQuality, TaskAdmission, TaskClass, UpsertOutcome,
};

#[test]
fn query_quality_never_treats_unavailable_as_current_local_facts() {
    assert!(QueryQuality::Exact.permits_local_facts());
    assert!(!QueryQuality::Unavailable.permits_local_facts());
}

#[test]
fn runtime_close_cancels_admitted_work_for_the_closed_snapshot() {
    let mut runtime = AnalysisRuntime::new(AdmissionLimits::new(2, 32));
    assert_eq!(runtime.upsert("file:///a.c", 1, "class A {}"), UpsertOutcome::Accepted);
    let snapshot = runtime.latest("file:///a.c").unwrap();
    let identity = match runtime.admit_task(TaskClass::Semantic, snapshot.clone(), 1) {
        AdmissionDisposition::Enqueued { task, .. } => task,
        other => panic!("unexpected admission disposition: {other:?}"),
    };
    let task = runtime.take_next().unwrap();
    assert_eq!(task.identity(), &identity);
    assert!(runtime.close("file:///a.c", snapshot.revision()).is_some());
    assert!(task.is_cancelled());
    assert!(!runtime.complete(&identity));
}

#[test]
fn accepting_a_new_revision_cancels_the_previous_runtime_task() {
    let mut runtime = AnalysisRuntime::new(AdmissionLimits::new(2, 64));
    assert_eq!(runtime.upsert("file:///a.c", 1, "class A {}"), UpsertOutcome::Accepted);
    let latest = runtime.latest("file:///a.c").unwrap();
    let old = match runtime.admit_task(TaskClass::Semantic, latest, 1) {
        AdmissionDisposition::Enqueued { .. } => runtime.take_next().unwrap(),
        other => panic!("unexpected admission disposition: {other:?}"),
    };

    assert_eq!(runtime.upsert("file:///a.c", 2, "class B {}"), UpsertOutcome::Accepted);
    assert!(old.is_cancelled());
    assert!(!runtime.complete(old.identity()));
}

#[test]
fn position_index_uses_utf16_and_crlf_boundaries() {
    let index = PositionIndex::new("a😀\r\nb\n");
    assert_eq!(index.position_for_offset(0), Position { line: 0, character: 0 });
    assert_eq!(index.position_for_offset(1), Position { line: 0, character: 1 });
    assert_eq!(index.position_for_offset(5), Position { line: 0, character: 3 });
    assert_eq!(index.position_for_offset(7), Position { line: 1, character: 0 });
    assert_eq!(index.offset_for_position(Position { line: 0, character: 2 }), None);
    assert_eq!(index.offset_for_position(Position { line: 1, character: 0 }), Some(6));
}

#[test]
fn accepted_snapshot_has_no_positions_until_foreground_installs_them() {
    let mut runtime = AnalysisRuntime::new(AdmissionLimits::new(2, 128));
    assert_eq!(runtime.upsert("file:///foreground.c", 1, "a😀\r\nb"), UpsertOutcome::Accepted);
    let snapshot = runtime.latest("file:///foreground.c").unwrap();
    assert!(snapshot.positions().is_none());

    assert!(snapshot.install_positions(PositionIndex::new(snapshot.text())));
    assert_eq!(
        runtime
            .latest("file:///foreground.c")
            .unwrap()
            .positions()
            .unwrap()
            .offset_for_position(Position { line: 1, character: 1 }),
        Some("a😀\r\nb".len())
    );
}

#[test]
fn store_rejects_stale_edits_and_preserves_owned_snapshots() {
    let mut store = DocumentStore::new();
    assert_eq!(store.upsert("file:///a.c", 1, "old"), UpsertOutcome::Accepted);
    let old = store.latest("file:///a.c").unwrap();
    assert_eq!(store.upsert("file:///a.c", 2, "new"), UpsertOutcome::Accepted);
    assert_eq!(store.upsert("file:///a.c", 1, "stale"), UpsertOutcome::Stale);
    let current = store.latest("file:///a.c").unwrap();
    assert_eq!(old.text(), "old");
    assert_eq!(current.text(), "new");
    assert!(current.revision() > old.revision());
}

#[test]
fn delayed_close_cannot_remove_a_newer_snapshot() {
    let mut store = DocumentStore::new();
    store.upsert("file:///a.c", 1, "first");
    let first = store.latest("file:///a.c").unwrap();
    store.upsert("file:///a.c", 2, "second");
    assert!(store.close("file:///a.c", first.revision()).is_none());
    let second = store.latest("file:///a.c").unwrap();
    assert_eq!(second.text(), "second");
    assert_eq!(store.close("file:///a.c", second.revision()).unwrap().text(), "second");
    assert!(store.latest("file:///a.c").is_none());
}

fn snapshot(uri: &str, version: i32, text: &str) -> DocumentSnapshot {
    let mut store = DocumentStore::new();
    assert_eq!(store.upsert(uri, version, text), UpsertOutcome::Accepted);
    store.latest(uri).unwrap()
}

#[test]
fn admission_is_latest_wins_and_cancels_an_inflight_replacement() {
    let mut admission = TaskAdmission::new(AdmissionLimits::new(2, 64));
    let first = snapshot("file:///a.c", 1, "old");
    let second = snapshot("file:///a.c", 2, "new");

    let first_identity = match admission.admit_task(TaskClass::Semantic, first, 10) {
        AdmissionDisposition::Enqueued { task, replaced } => {
            assert!(replaced.is_none());
            task
        }
        other => panic!("unexpected disposition: {other:?}"),
    };
    let running = admission.take_next().unwrap();
    assert_eq!(running.identity(), &first_identity);

    let second_identity = match admission.admit_task(TaskClass::Semantic, second, 11) {
        AdmissionDisposition::Enqueued { task, replaced } => {
            assert_eq!(replaced.as_ref(), Some(&first_identity));
            task
        }
        other => panic!("unexpected disposition: {other:?}"),
    };
    assert!(running.is_cancelled());
    assert!(!admission.complete(running.identity()));

    let replacement = admission.take_next().unwrap();
    assert_eq!(replacement.identity(), &second_identity);
    assert!(admission.complete(replacement.identity()));
    assert_eq!(admission.retained_jobs(), 0);
    assert_eq!(admission.retained_bytes(), 0);
}

#[test]
fn admission_prioritizes_foreground_and_bounds_retained_snapshots() {
    let mut admission = TaskAdmission::new(AdmissionLimits::new(2, 6));
    let semantic = snapshot("file:///semantic.c", 1, "abc");
    let foreground = snapshot("file:///foreground.c", 1, "def");
    let overload = snapshot("file:///rich.c", 1, "g");

    assert!(matches!(
        admission.admit_task(TaskClass::Semantic, semantic, 1),
        AdmissionDisposition::Enqueued { .. }
    ));
    assert!(matches!(
        admission.admit_task(TaskClass::Foreground, foreground, 2),
        AdmissionDisposition::Enqueued { .. }
    ));
    assert_eq!(admission.retained_jobs(), 2);
    assert_eq!(admission.retained_bytes(), 6);
    assert_eq!(
        admission.admit_task(TaskClass::Rich, overload, 3),
        AdmissionDisposition::DroppedOverload { class: TaskClass::Rich, retained_jobs: 2, retained_bytes: 6 }
    );

    let first = admission.take_next().unwrap();
    assert_eq!(first.identity().class(), TaskClass::Foreground);
    assert!(admission.complete(first.identity()));
    let second = admission.take_next().unwrap();
    assert_eq!(second.identity().class(), TaskClass::Semantic);
    assert!(admission.complete(second.identity()));
}

#[test]
fn overload_cancels_an_obsolete_task_and_close_releases_queued_bytes() {
    let mut admission = TaskAdmission::new(AdmissionLimits::new(1, 3));
    let old = snapshot("file:///a.c", 1, "abc");
    let too_large = snapshot("file:///a.c", 2, "abcd");
    let old_identity = match admission.admit_task(TaskClass::Semantic, old, 1) {
        AdmissionDisposition::Enqueued { task, .. } => task,
        other => panic!("unexpected disposition: {other:?}"),
    };
    let old_task = admission.take_next().unwrap();

    assert_eq!(
        admission.admit_task(TaskClass::Semantic, too_large, 2),
        AdmissionDisposition::DroppedOverload { class: TaskClass::Semantic, retained_jobs: 0, retained_bytes: 0 }
    );
    assert!(old_task.is_cancelled());
    assert!(!admission.complete(&old_identity));
    assert_eq!(admission.retained_jobs(), 0);

    let queued = snapshot("file:///a.c", 3, "abc");
    assert!(matches!(admission.admit_task(TaskClass::Rich, queued, 3), AdmissionDisposition::Enqueued { .. }));
    admission.cancel_uri("file:///a.c");
    assert_eq!(admission.retained_jobs(), 0);
    assert_eq!(admission.retained_bytes(), 0);
    assert!(admission.take_next().is_none());
}

// Further cases of the same laws.

#[test]
fn recovering_offset_resolves_inside_a_surrogate_pair_to_its_first_byte() {
    let index = PositionIndex::new("a😀b");
    assert_eq!(index.offset_for_position(Position { line: 0, character: 2 }), None);
    assert_eq!(index.offset_for_position_recovering(Position { line: 0, character: 2 }), Some(1));
    assert_eq!(index.offset_for_position_recovering(Position { line: 0, character: 3 }), Some(5));
    assert_eq!(index.offset_for_position_recovering(Position { line: 4, character: 0 }), None);
}

#[test]
fn position_for_offset_clamps_past_the_end_and_lone_line_feeds_count() {
    let index = PositionIndex::new("a\nb\r");
    assert_eq!(index.position_for_offset(2), Position { line: 1, character: 0 });
    assert_eq!(index.position_for_offset(100), Position { line: 2, character: 0 });
    assert_eq!(PositionIndex::new("").position_for_offset(3), Position { line: 0, character: 0 });
}

#[test]
fn cancellable_build_stops_when_asked() {
    let stop = || true;
    assert!(PositionIndex::new_cancellable("abc", Some(&stop)).is_none());
    let go = || false;
    let built = PositionIndex::new_cancellable("abc", Some(&go)).unwrap();
    assert_eq!(built.position_for_offset(3), Position { line: 0, character: 3 });
}

#[test]
fn equal_version_is_stale_and_revisions_increase_across_uris() {
    let mut store = DocumentStore::new();
    assert_eq!(store.upsert("file:///a.c", 3, "a"), UpsertOutcome::Accepted);
    assert_eq!(store.upsert("file:///a.c", 3, "again"), UpsertOutcome::Stale);
    assert_eq!(store.upsert("file:///b.c", 1, "b"), UpsertOutcome::Accepted);
    let a = store.latest("file:///a.c").unwrap();
    let b = store.latest("file:///b.c").unwrap();
    assert_eq!(a.text(), "a");
    assert_eq!(a.revision(), 1);
    assert_eq!(b.revision(), 2);
    assert_eq!(b.uri(), "file:///b.c");
    assert_eq!(b.version(), 1);
}

#[test]
fn second_install_of_positions_is_refused() {
    let s = snapshot("file:///x.c", 1, "x");
    assert!(s.install_positions(PositionIndex::new(s.text())));
    assert!(!s.install_positions(PositionIndex::new(s.text())));
}

#[test]
fn lanes_are_separate_for_one_uri_and_each_lane_is_fifo() {
    let mut admission = TaskAdmission::new(AdmissionLimits::new(4, 100));
    let a = snapshot("file:///a.c", 1, "a");
    let b = snapshot("file:///b.c", 1, "b");
    let a2 = snapshot("file:///a.c", 1, "a");
    assert!(matches!(admission.admit_task(TaskClass::Rich, a, 1), AdmissionDisposition::Enqueued { .. }));
    assert!(matches!(admission.admit_task(TaskClass::Rich, b, 2), AdmissionDisposition::Enqueued { .. }));
    assert!(matches!(admission.admit_task(TaskClass::Semantic, a2, 3), AdmissionDisposition::Enqueued { .. }));
    assert_eq!(admission.retained_jobs(), 3);
    let first = admission.take_next().unwrap();
    assert_eq!(first.identity().class(), TaskClass::Semantic);
    let second = admission.take_next().unwrap();
    assert_eq!(second.identity().uri(), "file:///a.c");
    assert_eq!(second.identity().request_id(), 1);
    let third = admission.take_next().unwrap();
    assert_eq!(third.identity().uri(), "file:///b.c");
    assert!(admission.take_next().is_none());
    assert_eq!(admission.retained_jobs(), 3);
    assert!(admission.complete(third.identity()));
    assert_eq!(admission.retained_jobs(), 2);
    assert_eq!(admission.retained_bytes(), 2);
}

#[test]
fn position_round_trip_finds_the_earliest_offset_with_that_position() {
    let source = "a😀\r\nb\n";
    let index = PositionIndex::new(source);
    for offset in 0..=source.len() {
        let position = index.position_for_offset(offset);
        let back = index.offset_for_position(position).unwrap();
        assert!(back <= offset);
        assert_eq!(index.position_for_offset(back), position);
        for earlier in 0..back {
            assert_ne!(index.position_for_offset(earlier), position);
        }
    }
    assert_eq!(index.offset_for_position(index.position_for_offset(7)), Some(6));
    assert_eq!(index.offset_for_position(index.position_for_offset(3)), Some(1));
}

#[test]
fn successive_dispatches_hand_out_distinct_identities() {
    let mut runtime = AnalysisRuntime::new(AdmissionLimits::new(4, 256));
    assert_eq!(runtime.upsert("file:///a.c", 1, "class A {}"), UpsertOutcome::Accepted);
    assert_eq!(runtime.upsert("file:///b.c", 1, "class B {}"), UpsertOutcome::Accepted);
    let a = runtime.latest("file:///a.c").unwrap();
    let b = runtime.latest("file:///b.c").unwrap();
    assert!(matches!(runtime.admit_task(TaskClass::Semantic, a, 1), AdmissionDisposition::Enqueued { .. }));
    assert!(matches!(runtime.admit_task(TaskClass::Semantic, b, 2), AdmissionDisposition::Enqueued { .. }));
    let first = runtime.take_next().unwrap();
    let second = runtime.take_next().unwrap();
    assert_ne!(first.identity(), second.identity());
    assert!(runtime.take_next().is_none());
}
