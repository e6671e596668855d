use pg_rules::memo_value::{MemoValueRecorder, MemoValueTotals, SubtreeStack, SubtreeWork};

#[test]
fn memo_value_record_is_a_no_op_when_disabled() {
    let mut rec = MemoValueRecorder::new(false);
    rec.record_insert(0, 100, 3, 2, SubtreeWork::default());
    rec.record_hit(0);
    assert_eq!(rec.dump_entries().len(), 0);
}

/// A flat leaf must have `inclusive == exclusive` and no descendants; a parent with one child
/// pushed and popped inside its window must come back with `inclusive > exclusive` and one
/// descendant.
#[test]
fn subtree_work_differs_between_a_leaf_and_a_parent_with_one_child() {
    let mut s = SubtreeStack::new();
    // Leaf: push at tick 10, pop at tick 16 -- 6 ticks, nothing nested beneath it.
    s.push_frame(10);
    let leaf = s.pop_frame(16);
    assert_eq!(leaf.inclusive, 6, "leaf inclusive = raw tick delta");
    assert_eq!(
        leaf.exclusive, leaf.inclusive,
        "no child pushed inside a leaf's window -- exclusive must equal inclusive"
    );
    assert_eq!(leaf.descendant_count, 0, "a leaf has no descendants");

    // Parent: push at 100, one child fully inside (104..109, 5 ticks), closes at 112.
    s.push_frame(100);
    s.push_frame(104);
    let child = s.pop_frame(109);
    let parent = s.pop_frame(112);
    assert_eq!(child.inclusive, 5);
    assert_eq!(parent.inclusive, 12, "parent inclusive = its own full raw tick delta");
    assert_eq!(
        parent.exclusive, 7,
        "parent exclusive = inclusive(12) - child inclusive(5) = 7, not equal to inclusive"
    );
    assert_ne!(parent.inclusive, parent.exclusive);
    assert_eq!(parent.descendant_count, 1, "exactly one child frame closed inside the parent's window");
}

/// The grandparent's descendant count counts both the middle child and the leaf beneath it.
#[test]
fn descendant_count_rolls_up_transitively_through_two_levels() {
    let mut s = SubtreeStack::new();
    s.push_frame(0); // grandparent
    s.push_frame(1); // middle child
    s.push_frame(2); // leaf grandchild
    let leaf = s.pop_frame(3);
    let middle = s.pop_frame(5);
    let grandparent = s.pop_frame(6);
    assert_eq!(leaf.descendant_count, 0);
    assert_eq!(middle.descendant_count, 1, "middle has exactly the leaf beneath it");
    assert_eq!(
        grandparent.descendant_count, 2,
        "grandparent must see both the middle child and the leaf beneath it, not just 1"
    );
}

// Own tests.

#[test]
fn an_end_tick_before_the_start_reads_as_zero_work() {
    let mut s = SubtreeStack::new();
    s.push_frame(50);
    let w = s.pop_frame(40);
    assert_eq!(w, SubtreeWork { inclusive: 0, exclusive: 0, descendant_count: 0 });
}

#[test]
fn enabled_recorder_tracks_inserts_and_hits_in_first_insert_order() {
    let mut rec = MemoValueRecorder::new(true);
    assert!(rec.enabled());
    rec.enter_subtree(10);
    let work = rec.exit_subtree(14);
    assert_eq!(work.inclusive, 4);
    rec.record_insert(7, 100, 3, 2, work);
    rec.record_insert(9, 50, 1, 0, SubtreeWork::default());
    rec.record_hit(7);
    rec.record_hit(7);
    rec.record_hit(42); // never stored: ignored
    let entries = rec.dump_entries();
    assert_eq!(entries.len(), 2);
    assert_eq!(entries[0].bytes, 100);
    assert_eq!(entries[0].hits, 2);
    assert_eq!(entries[0].subtree_work_inclusive, 4);
    assert_eq!(entries[1].bytes, 50);
    assert_eq!(entries[1].hits, 0);
}

#[test]
fn reinserting_a_key_replaces_its_entry() {
    let mut rec = MemoValueRecorder::new(true);
    rec.record_insert(1, 10, 1, 1, SubtreeWork::default());
    rec.record_hit(1);
    rec.record_insert(1, 20, 2, 2, SubtreeWork::default());
    let entries = rec.dump_entries();
    assert_eq!(entries.len(), 1);
    assert_eq!(entries[0].bytes, 20);
    assert_eq!(entries[0].hits, 0);
}

#[test]
fn disabled_recorder_exit_reports_zero_work() {
    let mut rec = MemoValueRecorder::new(false);
    rec.enter_subtree(1);
    assert_eq!(rec.exit_subtree(100), SubtreeWork::default());
}

#[test]
fn totals_aggregate_every_entry() {
    let mut rec = MemoValueRecorder::new(true);
    let w = SubtreeWork { inclusive: 10, exclusive: 6, descendant_count: 2 };
    rec.record_insert(1, 100, 3, 2, w);
    rec.record_insert(2, 40, 1, 5, SubtreeWork { inclusive: 4, exclusive: 4, descendant_count: 0 });
    rec.record_hit(1);
    rec.record_hit(1);
    rec.record_hit(1);
    assert_eq!(
        rec.totals(),
        MemoValueTotals {
            entries: 2,
            total_bytes: 140,
            zero_hit_entries: 1,
            zero_hit_bytes: 40,
            hits_total: 3,
            results_len_total: 4,
            depth_at_insert_total: 7,
            subtree_work_inclusive_total: 14,
            subtree_work_exclusive_total: 10,
            descendant_count_total: 2,
            total_work_saved_exclusive: 18,
        }
    );
}

#[test]
fn a_dump_counts_only_the_hits_since_the_last_insert() {
    let mut rec = MemoValueRecorder::new(true);
    rec.record_insert(5, 10, 1, 1, SubtreeWork::default());
    rec.record_hit(5);
    rec.record_hit(5);
    rec.record_insert(5, 30, 4, 3, SubtreeWork::default());
    rec.record_hit(5);
    rec.record_insert(6, 1, 1, 0, SubtreeWork::default());
    rec.record_hit(5);
    let entries = rec.dump_entries();
    assert_eq!(entries.len(), 2);
    assert_eq!((entries[0].bytes, entries[0].results_len, entries[0].depth_at_insert, entries[0].hits), (30, 4, 3, 2));
    assert_eq!(entries[1].hits, 0);
}
