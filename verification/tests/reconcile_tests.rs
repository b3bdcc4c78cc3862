use bevy_spacetimedb::reconcile::{KeyedRow, Reconciler, ViewEvent, reconcile_cycle};

fn entered(key: u64, row: &str) -> ViewEvent<String> {
    ViewEvent::Entered(KeyedRow { key, row: row.to_string() })
}

fn left(key: u64, row: &str) -> ViewEvent<String> {
    ViewEvent::Left(KeyedRow { key, row: row.to_string() })
}

#[test]
fn update_and_insert_in_one_cycle() {
    let out = reconcile_cycle(vec![entered(1, "A1"), left(1, "A0"), entered(2, "B1")]);

    assert_eq!(out.updates.len(), 1);
    assert_eq!(out.updates[0].old_row.key, 1);
    assert_eq!(out.updates[0].old_row.row, "A0");
    assert_eq!(out.updates[0].new_row.key, 1);
    assert_eq!(out.updates[0].new_row.row, "A1");

    assert_eq!(out.inserts.len(), 1);
    assert_eq!(out.inserts[0].row.key, 2);
    assert_eq!(out.inserts[0].row.row, "B1");

    assert_eq!(out.deletes.len(), 0);
}

#[test]
fn delete_only_cycle() {
    let out = reconcile_cycle(vec![left(3, "C0")]);

    assert_eq!(out.deletes.len(), 1);
    assert_eq!(out.deletes[0].row.key, 3);
    assert_eq!(out.deletes[0].row.row, "C0");

    assert_eq!(out.inserts.len(), 0);
    assert_eq!(out.updates.len(), 0);
}

#[test]
fn empty_cycle_emits_nothing() {
    let out = reconcile_cycle(Vec::<ViewEvent<String>>::new());

    assert_eq!(out.inserts.len(), 0);
    assert_eq!(out.updates.len(), 0);
    assert_eq!(out.deletes.len(), 0);
}

#[test]
fn cycle_order_within_a_key_does_not_matter() {
    let out = reconcile_cycle(vec![left(7, "before"), entered(7, "after")]);
    assert_eq!(out.updates.len(), 1);
    assert_eq!(out.updates[0].old_row.row, "before");
    assert_eq!(out.updates[0].new_row.row, "after");

    let out = reconcile_cycle(vec![entered(7, "after"), left(7, "before")]);
    assert_eq!(out.updates.len(), 1);
    assert_eq!(out.updates[0].old_row.row, "before");
    assert_eq!(out.updates[0].new_row.row, "after");
    assert_eq!(out.inserts.len(), 0);
    assert_eq!(out.deletes.len(), 0);
}

#[test]
fn last_event_for_a_key_wins_within_a_direction() {
    let out = reconcile_cycle(vec![entered(1, "first"), entered(1, "second")]);

    assert_eq!(out.inserts.len(), 1);
    assert_eq!(out.inserts[0].row.row, "second");
    assert_eq!(out.updates.len(), 0);
    assert_eq!(out.deletes.len(), 0);
}

#[test]
fn buffers_are_rebuilt_from_empty_every_cycle() {
    let mut rec: Reconciler<String> = Reconciler::new();

    rec.record(left(5, "r0"));
    let out = rec.end_cycle();
    assert_eq!(out.deletes.len(), 1);
    assert_eq!(out.deletes[0].row.row, "r0");
    assert_eq!(out.inserts.len(), 0);
    assert_eq!(out.updates.len(), 0);

    // The delete and the later insert straddle a cycle boundary, so they
    // stay independent: no update is coalesced across cycles.
    rec.record(entered(5, "r1"));
    let out = rec.end_cycle();
    assert_eq!(out.inserts.len(), 1);
    assert_eq!(out.inserts[0].row.row, "r1");
    assert_eq!(out.updates.len(), 0);
    assert_eq!(out.deletes.len(), 0);
}

#[test]
fn closed_cycle_leaves_no_residual_state() {
    let mut rec: Reconciler<String> = Reconciler::new();

    rec.record(entered(1, "a"));
    rec.record(left(2, "b"));
    let out = rec.end_cycle();
    assert_eq!(out.inserts.len(), 1);
    assert_eq!(out.deletes.len(), 1);

    let out = rec.end_cycle();
    assert_eq!(out.inserts.len(), 0);
    assert_eq!(out.updates.len(), 0);
    assert_eq!(out.deletes.len(), 0);
}

#[test]
fn distinct_keys_stay_separate() {
    let out = reconcile_cycle(vec![
        entered(1, "one"),
        left(2, "two"),
        entered(3, "three"),
        left(3, "three-old"),
    ]);

    assert_eq!(out.inserts.len(), 1);
    assert_eq!(out.inserts[0].row.key, 1);
    assert_eq!(out.deletes.len(), 1);
    assert_eq!(out.deletes[0].row.key, 2);
    assert_eq!(out.updates.len(), 1);
    assert_eq!(out.updates[0].new_row.key, 3);
    assert_eq!(out.updates[0].old_row.row, "three-old");
    assert_eq!(out.updates[0].new_row.row, "three");
}
