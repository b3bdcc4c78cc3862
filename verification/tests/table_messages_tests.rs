use bevy_spacetimedb::table_messages::{TableMessages, TableMessagesWithoutPrimaryKey};

#[test]
fn all_selects_every_queue() {
    let m = TableMessages::all();
    assert!(m.insert);
    assert!(m.update);
    assert!(m.delete);

    let p = m.plan();
    assert!(p.insert);
    assert!(p.update);
    assert!(p.delete);
    assert!(p.insert_update);
}

#[test]
fn no_update_skips_the_update_queues() {
    let m = TableMessages::no_update();
    assert!(m.insert);
    assert!(!m.update);
    assert!(m.delete);

    let p = m.plan();
    assert!(p.insert);
    assert!(!p.update);
    assert!(p.delete);
    assert!(!p.insert_update);
}

#[test]
fn combined_queue_needs_both_insert_and_update() {
    let m = TableMessages { insert: false, update: true, delete: false };
    let p = m.plan();
    assert!(!p.insert);
    assert!(p.update);
    assert!(!p.insert_update);

    let m = TableMessages { insert: true, update: true, delete: false };
    assert!(m.plan().insert_update);
}

#[test]
fn default_selects_no_queue() {
    let m = TableMessages::default();
    assert!(!m.insert);
    assert!(!m.update);
    assert!(!m.delete);

    let m = TableMessagesWithoutPrimaryKey::default();
    assert!(!m.insert);
    assert!(!m.delete);
}

#[test]
fn all_without_pk_selects_every_available_queue() {
    let m = TableMessagesWithoutPrimaryKey::all();
    assert!(m.insert);
    assert!(m.delete);

    let p = m.plan();
    assert!(p.insert);
    assert!(!p.update);
    assert!(p.delete);
    assert!(!p.insert_update);
}
