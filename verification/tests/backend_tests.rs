use ruh_time_tracker::backend::Backend;
use ruh_time_tracker::backend::WorkingMode;

/// Builds the Work / Coding / Feature-X chain and selects it fully.
/// Returns the backend and the subject key.
fn work_chain(now: u64) -> (Backend, u64) {
    let mut b = Backend::fresh(now);
    b.add_project("Work", now);
    let pid = b.projects.inner[0].0;
    b.set_current_project(Some(pid));
    b.add_sub_project("Coding", now + 1);
    let sid = b.projects.inner[0].1.inner[0].0;
    b.set_current_sub_project(Some(sid));
    b.add_subject("Feature-X", now + 2);
    let fid = b.projects.inner[0].1.inner[0].1.inner[0].0;
    b.set_current_subject(Some(fid));
    (b, fid)
}

#[test]
fn scenario_three_ticks_then_forced_stop() {
    let (mut b, _fid) = work_chain(0);
    b.start_subject(100);
    b.update_time(130);
    b.update_time(160);
    b.update_time(190);
    assert_eq!(b.current_session_duration, 90);
    assert_eq!(b.get_current_subject().unwrap().duration, 90);
    assert_eq!(b.get_current_subject().unwrap().name, "Feature-X");

    b.add_subject("other", 200);
    let other = b
        .projects.inner[0].1.inner[0].1
        .inner
        .iter()
        .find(|(_, s)| s.name == "other")
        .unwrap()
        .0;
    b.set_current_subject(Some(other));
    b.stop_subject(true);
    assert_eq!(b.current_session_duration, 0);
    assert!(matches!(b.working_mode, WorkingMode::Idle));
}

#[test]
fn session_continuity_across_restart() {
    let (mut b, fid) = work_chain(0);
    b.start_subject(100);
    b.update_time(120);
    b.update_time(150);
    assert_eq!(b.current_session_duration, 50);

    // Restarting the same subject keeps the session clock.
    b.start_subject(150);
    assert_eq!(b.current_session_duration, 50);
    assert_eq!(b.last_session_subject_id, fid);

    // Starting a different subject resets it.
    b.add_subject("B", 160);
    let bid = b
        .projects.inner[0].1.inner[0].1
        .inner
        .iter()
        .find(|(_, s)| s.name == "B")
        .unwrap()
        .0;
    b.set_current_subject(Some(bid));
    b.start_subject(170);
    assert_eq!(b.current_session_duration, 0);
    assert_eq!(b.last_session_subject_id, bid);
}

#[test]
fn dirty_after_mutation_and_clean_after_tick() {
    let mut b = Backend::fresh(0);
    assert!(!b.dirty);
    b.add_project("Work", 1);
    assert!(b.dirty);
    let flush = b.update_time(2);
    assert!(flush);
    assert!(!b.dirty);
    // Nothing changed: the next tick asks for no flush.
    assert!(!b.update_time(3));
}

#[test]
fn accrual_flushes_on_the_slow_cadence() {
    let (mut b, _fid) = work_chain(0);
    // Drain the structural dirt first.
    assert!(b.update_time(5));
    b.start_subject(6);
    assert!(!b.update_time(10));
    assert!(!b.update_time(15));
    // More than ten seconds after the last save, accrual alone flushes.
    assert!(b.update_time(16));
    assert!(!b.update_time(17));
}

#[test]
fn start_without_resolved_chain_is_a_no_op() {
    let mut b = Backend::fresh(0);
    b.start_subject(10);
    assert!(matches!(b.working_mode, WorkingMode::Idle));
    assert!(b.history.records.is_empty());

    b.add_project("Work", 1);
    let pid = b.projects.inner[0].0;
    b.set_current_project(Some(pid));
    // Project selected, but no sub-project/subject chain yet.
    b.start_subject(10);
    assert!(matches!(b.working_mode, WorkingMode::Idle));
    assert!(b.history.records.is_empty());
}

#[test]
fn start_opens_a_history_record_and_ticks_extend_it() {
    let (mut b, fid) = work_chain(0);
    b.start_subject(100);
    assert_eq!(b.history.records.len(), 1);
    let rec = b.history.records[0];
    assert_eq!(rec.start_date, 100);
    assert_eq!(rec.end_date, 100);
    assert_eq!(rec.subject_id, fid);
    b.update_time(130);
    assert_eq!(b.history.records[0].end_date, 130);
    assert_eq!(b.history.records[0].start_date, 100);
}

#[test]
fn stopping_without_force_keeps_clock_on_same_subject() {
    let (mut b, _fid) = work_chain(0);
    b.start_subject(100);
    b.update_time(140);
    b.stop_subject(false);
    assert_eq!(b.current_session_duration, 40);
    assert!(matches!(b.working_mode, WorkingMode::Idle));
}

#[test]
fn project_times_aggregate_subject_durations() {
    let (mut b, _fid) = work_chain(0);
    b.start_subject(100);
    b.update_time(142);
    b.stop_subject(false);

    let pid = b.projects.inner[0].0;
    let sid = b.projects.inner[0].1.inner[0].0;
    assert_eq!(b.get_project_time(pid), Some(42));
    assert_eq!(b.get_sub_project_time(sid), Some(42));
    assert_eq!(b.get_project_time(pid.wrapping_add(1)), None);
    assert_eq!(b.get_sub_project_time(sid.wrapping_add(1)), None);
}

#[test]
fn deleted_subjects_are_excluded_from_time_totals() {
    let (mut b, _fid) = work_chain(0);
    b.start_subject(100);
    b.update_time(142);
    b.stop_subject(false);
    let pid = b.projects.inner[0].0;
    let sid = b.projects.inner[0].1.inner[0].0;
    assert_eq!(b.get_project_time(pid), Some(42));
    assert_eq!(b.get_sub_project_time(sid), Some(42));

    // Soft-deleting the subject hides its time from all aggregation
    // while the node itself is retained for historical id resolution.
    b.projects.inner[0].1.inner[0].1.inner[0].1.is_deleted = true;
    assert_eq!(b.get_project_time(pid), Some(0));
    assert_eq!(b.get_sub_project_time(sid), Some(0));
    assert_eq!(b.projects.inner[0].1.inner[0].1.inner.len(), 1);
}

#[test]
fn work_name_reads_the_chain_or_none() {
    let (b, _fid) = work_chain(0);
    assert_eq!(b.get_current_work_name(), " Work/Coding/Feature-X");

    let empty = Backend::fresh(0);
    assert_eq!(empty.get_current_work_name(), "None");
}

#[test]
fn toggle_todo_twice_restores_the_flag() {
    let mut b = Backend::fresh(0);
    b.add_todo_project("Home", 1);
    let pid = b.todos.inner[0].0;
    b.set_current_todo_project(Some(pid));
    b.add_todo_sub_project("Chores", 2);
    let sid = b.todos.inner[0].1.inner[0].0;
    b.set_current_todo_sub_project(Some(sid));
    b.add_todo_subject("Dishes", 3);
    let tid = b.todos.inner[0].1.inner[0].1.inner[0].0;

    assert!(!b.todos.inner[0].1.inner[0].1.inner[0].1.is_done);
    b.toggle_todo(tid);
    assert!(b.todos.inner[0].1.inner[0].1.inner[0].1.is_done);
    assert!(b.dirty);
    b.toggle_todo(tid);
    assert!(!b.todos.inner[0].1.inner[0].1.inner[0].1.is_done);
}

#[test]
fn toggle_todo_with_unknown_key_is_a_no_op() {
    let mut b = Backend::fresh(0);
    b.add_todo_project("Home", 1);
    let pid = b.todos.inner[0].0;
    b.set_current_todo_project(Some(pid));
    b.update_time(2);
    b.toggle_todo(12345);
    assert!(!b.dirty);
}

#[test]
fn selections_ignore_unknown_keys() {
    let (mut b, fid) = work_chain(0);
    b.set_current_subject(Some(fid.wrapping_add(1)));
    assert_eq!(b.get_current_subject().unwrap().id, fid);
    b.set_current_subject(None);
    assert!(b.get_current_subject().is_none());
}

#[test]
fn assemble_accepts_good_parts_and_rejects_bad_ones() {
    let (b, _fid) = work_chain(0);
    let rebuilt = Backend::assemble(
        b.projects,
        b.todos,
        17,
        99,
        1000,
        b.history,
    )
    .unwrap();
    assert_eq!(rebuilt.current_session_duration, 17);
    assert_eq!(rebuilt.last_session_subject_id, 99);
    assert_eq!(rebuilt.last_save, 1000);
    assert!(!rebuilt.dirty);
    assert!(matches!(rebuilt.working_mode, WorkingMode::Idle));
    assert_eq!(rebuilt.get_current_work_name(), " Work/Coding/Feature-X");

    // A dangling selection in a loaded tree is rejected as a whole.
    let (mut bad, _) = work_chain(0);
    bad.projects.current_inner_id = Some(424242);
    let (ok, _) = work_chain(0);
    assert!(Backend::assemble(bad.projects, ok.todos, 0, 0, 0, ok.history).is_none());
}

#[test]
fn fresh_state_is_clean_and_idle() {
    let b = Backend::fresh(77);
    assert!(!b.dirty);
    assert_eq!(b.current_session_duration, 0);
    assert_eq!(b.last_save, 77);
    assert!(matches!(b.working_mode, WorkingMode::Idle));
    assert_eq!(b.projects.name, "root");
    assert_eq!(b.todos.name, "root");
    assert!(b.projects.inner.is_empty());
    assert!(b.history.records.is_empty());
}

#[test]
fn clock_stepping_backwards_accrues_nothing() {
    let (mut b, _fid) = work_chain(0);
    b.start_subject(100);
    b.update_time(90);
    assert_eq!(b.current_session_duration, 0);
    b.update_time(120);
    assert_eq!(b.current_session_duration, 30);
}
