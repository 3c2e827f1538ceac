use ruh_time_tracker::history::History;
use ruh_time_tracker::history::HistoryRecord;

const DAY: u64 = 86400;

#[test]
fn record_lifecycle_and_duration() {
    let mut h = History::new();
    let id = h.add_record(1, 2, 3, 1000);
    assert_eq!(h.records.len(), 1);
    assert_eq!(h.records[0].id, id);
    assert_eq!(h.records[0].start_date, 1000);
    assert_eq!(h.records[0].end_date, 1000);
    assert_eq!(h.records[0].project_id, 1);
    assert_eq!(h.records[0].sub_project_id, 2);
    assert_eq!(h.records[0].subject_id, 3);
    assert_eq!(h.records[0].get_duration(), 0);

    h.update(id, 1600);
    assert_eq!(h.records[0].end_date, 1600);
    assert_eq!(h.records[0].get_duration(), 600);
}

#[test]
fn update_of_stale_id_is_a_no_op() {
    let mut h = History::new();
    let id = h.add_record(1, 2, 3, 1000);
    h.update(id.wrapping_add(1), 5000);
    assert_eq!(h.records[0].end_date, 1000);
}

#[test]
fn update_never_moves_end_before_start() {
    let mut h = History::new();
    let id = h.add_record(1, 2, 3, 1000);
    h.update(id, 400);
    assert_eq!(h.records[0].end_date, 1000);
}

#[test]
fn range_filter_is_half_open() {
    let mut h = History::new();
    h.add_record(1, 1, 1, 10);
    h.add_record(1, 1, 1, 20);
    h.add_record(1, 1, 1, 30);
    let picked = h.get_records(10, 30);
    let starts: Vec<u64> = picked.iter().map(|r| r.start_date).collect();
    assert!(starts.contains(&10));
    assert!(starts.contains(&20));
    assert!(!starts.contains(&30));
    assert_eq!(picked.len(), 2);
}

#[test]
fn midnight_crossing_record_is_split() {
    // A record from 23:50 of the first day to 00:10 of the next.
    let mut h = History::new();
    let id = h.add_record(1, 2, 3, DAY - 600);
    h.update(id, DAY + 600);

    let buckets = h.get_ordered_records(0, DAY + 3600);
    assert_eq!(buckets.len(), 2);
    assert_eq!(buckets[0].len(), 1);
    assert_eq!(buckets[1].len(), 1);

    let head = buckets[0][0];
    assert_eq!(head.start_date, DAY - 600);
    assert_eq!(head.end_date, DAY - 1);
    assert_eq!(head.get_duration(), 599);

    let tail = buckets[1][0];
    assert_eq!(tail.start_date, DAY);
    assert_eq!(tail.end_date, DAY + 600);
    assert_eq!(tail.get_duration(), 600);

    assert_eq!(head.project_id, 1);
    assert_eq!(tail.subject_id, 3);

    // The two halves cover the whole span except the single second
    // between 23:59:59 and the following midnight.
    assert_eq!(head.get_duration() + tail.get_duration() + 1, 1200);
}

#[test]
fn split_tail_outside_range_is_dropped() {
    let mut h = History::new();
    let id = h.add_record(1, 2, 3, DAY - 600);
    h.update(id, DAY + 600);

    let buckets = h.get_ordered_records(0, DAY - 1);
    assert_eq!(buckets.len(), 1);
    assert_eq!(buckets[0].len(), 1);
    assert_eq!(buckets[0][0].end_date, DAY - 1);
}

#[test]
fn buckets_come_out_sorted_by_start() {
    let mut h = History::new();
    h.add_record(1, 1, 1, 5000);
    h.add_record(1, 1, 1, 1000);
    h.add_record(1, 1, 1, 3000);
    let late = h.add_record(1, 1, 1, DAY - 10);
    h.update(late, DAY + 10);

    let buckets = h.get_ordered_records(0, 2 * DAY - 1);
    assert_eq!(buckets.len(), 2);
    let starts: Vec<u64> = buckets[0].iter().map(|r| r.start_date).collect();
    assert_eq!(starts, vec![1000, 3000, 5000, DAY - 10]);
    assert_eq!(buckets[1].len(), 1);
    assert_eq!(buckets[1][0].start_date, DAY);
}

#[test]
fn records_outside_range_are_ignored() {
    let mut h = History::new();
    h.add_record(1, 1, 1, 100);
    h.add_record(1, 1, 1, 9999);
    let buckets = h.get_ordered_records(50, 200);
    assert_eq!(buckets.len(), 1);
    assert_eq!(buckets[0].len(), 1);
    assert_eq!(buckets[0][0].start_date, 100);
}

#[test]
fn duration_of_handwritten_record() {
    let rec = HistoryRecord {
        id: 1,
        start_date: 500,
        end_date: 500,
        project_id: 0,
        sub_project_id: 0,
        subject_id: 0,
    };
    assert_eq!(rec.get_duration(), 0);
    let rec2 = HistoryRecord { end_date: 1700, ..rec };
    assert_eq!(rec2.get_duration(), 1200);
    let rec3 = HistoryRecord { end_date: 200, ..rec };
    assert_eq!(rec3.get_duration(), -300);
}

#[test]
fn ledger_check_rejects_backwards_intervals() {
    let h = History {
        records: vec![HistoryRecord {
            id: 1,
            start_date: 500,
            end_date: 400,
            project_id: 0,
            sub_project_id: 0,
            subject_id: 0,
        }],
    };
    assert!(!h.check_wf());
}

#[test]
fn ledger_check_rejects_duplicate_ids() {
    let rec = HistoryRecord {
        id: 1,
        start_date: 100,
        end_date: 200,
        project_id: 0,
        sub_project_id: 0,
        subject_id: 0,
    };
    let h = History { records: vec![rec, rec] };
    assert!(!h.check_wf());
    let ok = History { records: vec![rec, HistoryRecord { id: 2, ..rec }] };
    assert!(ok.check_wf());
}
