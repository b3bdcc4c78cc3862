use bevy_spacetimedb::messages::{
    DeleteMessage, InsertMessage, InsertUpdateMessage, ReducerResultMessage, StdbConnectedMessage,
    StdbConnectionErrorMessage, StdbDisconnectedMessage, UpdateMessage,
};

#[test]
fn combined_record_marks_inserts_and_updates_apart() {
    let m = InsertUpdateMessage::from_insert("row".to_string());
    assert_eq!(m.old_row, None);
    assert_eq!(m.new_row, "row");

    let m = InsertUpdateMessage::from_update("old".to_string(), "new".to_string());
    assert_eq!(m.old_row.as_deref(), Some("old"));
    assert_eq!(m.new_row, "new");
}

#[test]
fn table_records_carry_their_rows() {
    let m = InsertMessage { row: 5u32 };
    assert_eq!(m.row, 5);

    let m = UpdateMessage { old_row: 5u32, new_row: 6u32 };
    assert_eq!(m.old_row, 5);
    assert_eq!(m.new_row, 6);

    let m = DeleteMessage { row: 6u32 };
    assert_eq!(m.row, 6);
}

#[test]
fn lifecycle_and_reducer_records_carry_their_payload() {
    let m = ReducerResultMessage { result: 7u32 };
    assert_eq!(m.result, 7);

    let e = StdbConnectionErrorMessage { message: "connection refused".to_string() };
    assert_eq!(e.message, "connection refused");

    assert_eq!(StdbConnectedMessage, StdbConnectedMessage.clone());
    assert_eq!(StdbDisconnectedMessage, StdbDisconnectedMessage.clone());
}
