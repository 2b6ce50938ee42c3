use ltc::ledger::ClientDatabase;

#[test]
fn new_ledger_is_empty() {
    let db = ClientDatabase::new();
    assert_eq!(db.len(), 0);
    assert!(db.client(1).is_none());
    assert!(db.ids().is_empty());
}

#[test]
fn single_session_is_credited_in_full() {
    let mut db = ClientDatabase::new();
    db.log_connect(5, "Bob", 100);
    let open = db.client(5).unwrap();
    assert_eq!(open.num_conn, 1);
    assert_eq!(open.last_time_connected, 100);
    assert_eq!(open.total_time_connected, 0);
    db.log_disconnect(5, 160);
    let closed = db.client(5).unwrap();
    assert_eq!(closed.total_time_connected, 60);
    assert_eq!(closed.num_conn, 0);
    assert_eq!(closed.last_time_connected, 0);
    assert_eq!(closed.name, "Bob");
}

#[test]
fn session_of_no_length_is_credited_nothing() {
    let mut db = ClientDatabase::new();
    db.log_connect(5, "Bob", 100);
    db.log_disconnect(5, 100);
    assert_eq!(db.client(5).unwrap().total_time_connected, 0);
}

#[test]
fn overlapping_connections_are_credited_once() {
    let mut db = ClientDatabase::new();
    db.log_connect(7, "A", 30);
    db.log_connect(7, "A1", 40);
    let both = db.client(7).unwrap();
    assert_eq!(both.num_conn, 2);
    assert_eq!(both.last_time_connected, 30);
    assert_eq!(both.name, "A");
    db.log_disconnect(7, 50);
    let one = db.client(7).unwrap();
    assert_eq!(one.num_conn, 1);
    assert_eq!(one.total_time_connected, 0);
    assert_eq!(one.last_time_connected, 30);
    db.log_disconnect(7, 70);
    let none = db.client(7).unwrap();
    assert_eq!(none.total_time_connected, 40);
    assert_eq!(none.name, "A");
    assert_eq!(none.num_conn, 0);
    assert_eq!(none.last_time_connected, 0);
}

#[test]
fn session_open_at_rotation_is_discarded() {
    let mut db = ClientDatabase::new();
    db.log_connect(3, "Eve", 100);
    db.clear_clients();
    let cleared = db.client(3).unwrap();
    assert_eq!(cleared.num_conn, 0);
    assert_eq!(cleared.last_time_connected, 0);
    assert_eq!(cleared.name, "Eve");
    db.log_disconnect(3, 500);
    let after = db.client(3).unwrap();
    assert_eq!(after.total_time_connected, 0);
    assert_eq!(after.num_conn, 0);
}

#[test]
fn rotation_keeps_totals_and_names() {
    let mut db = ClientDatabase::new();
    db.log_connect(1, "One", 10);
    db.log_disconnect(1, 25);
    db.log_connect(2, "Two", 30);
    db.log_connect(2, "Two1", 31);
    db.clear_clients();
    assert_eq!(db.len(), 2);
    let one = db.client(1).unwrap();
    assert_eq!(one.total_time_connected, 15);
    assert_eq!(one.name, "One");
    let two = db.client(2).unwrap();
    assert_eq!(two.total_time_connected, 0);
    assert_eq!(two.name, "Two");
    assert_eq!(two.num_conn, 0);
    assert_eq!(two.last_time_connected, 0);
}

#[test]
fn rotation_of_empty_ledger_changes_nothing() {
    let mut db = ClientDatabase::new();
    db.clear_clients();
    assert_eq!(db.len(), 0);
}

#[test]
fn unknown_disconnect_creates_no_record() {
    let mut db = ClientDatabase::new();
    db.log_connect(1, "One", 10);
    assert!(db.can_disconnect(9, 20));
    db.log_disconnect(9, 20);
    assert_eq!(db.len(), 1);
    assert!(db.client(9).is_none());
    let one = db.client(1).unwrap();
    assert_eq!(one.num_conn, 1);
    assert_eq!(one.last_time_connected, 10);
}

#[test]
fn disconnect_of_idle_client_changes_nothing() {
    let mut db = ClientDatabase::new();
    db.log_connect(1, "One", 10);
    db.log_disconnect(1, 20);
    db.log_disconnect(1, 90);
    let one = db.client(1).unwrap();
    assert_eq!(one.total_time_connected, 10);
    assert_eq!(one.num_conn, 0);
}

#[test]
fn sessions_add_up_and_new_primary_session_sets_the_name() {
    let mut db = ClientDatabase::new();
    db.log_connect(4, "Ann", 100);
    db.log_disconnect(4, 130);
    db.log_connect(4, "Anna", 200);
    assert_eq!(db.client(4).unwrap().name, "Anna");
    db.log_disconnect(4, 250);
    let ann = db.client(4).unwrap();
    assert_eq!(ann.total_time_connected, 80);
    assert_eq!(ann.name, "Anna");
    assert_eq!(db.len(), 1);
}

#[test]
fn session_that_starts_at_zero_is_not_credited() {
    let mut db = ClientDatabase::new();
    db.log_connect(2, "Zed", 0);
    db.log_disconnect(2, 50);
    let zed = db.client(2).unwrap();
    assert_eq!(zed.total_time_connected, 0);
    assert_eq!(zed.num_conn, 0);
}

#[test]
fn disconnect_before_the_start_lowers_the_total() {
    let mut db = ClientDatabase::new();
    db.log_connect(2, "Back", 100);
    db.log_disconnect(2, 40);
    assert_eq!(db.client(2).unwrap().total_time_connected, -60);
}

#[test]
fn a_total_beyond_the_field_is_refused() {
    let mut db = ClientDatabase::new();
    db.log_connect(6, "Far", -5);
    assert!(!db.can_disconnect(6, i64::MAX));
    assert!(db.can_disconnect(6, i64::MAX - 5));
    db.log_disconnect(6, i64::MAX - 5);
    assert_eq!(db.client(6).unwrap().total_time_connected, i64::MAX);
}

#[test]
fn a_shadow_disconnect_never_overflows() {
    let mut db = ClientDatabase::new();
    db.log_connect(6, "Far", -5);
    db.log_connect(6, "Far1", -4);
    assert!(db.can_disconnect(6, i64::MAX));
    assert!(db.can_connect(6));
    assert!(db.can_connect(77));
}

#[test]
fn ids_lists_every_client_once() {
    let mut db = ClientDatabase::new();
    db.log_connect(9, "a", 1);
    db.log_connect(3, "b", 2);
    db.log_connect(9, "c", 3);
    db.log_connect(12, "d", 4);
    let mut ids = db.ids();
    ids.sort();
    assert_eq!(ids, vec![3, 9, 12]);
    assert_eq!(db.len(), 3);
}
