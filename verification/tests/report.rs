use ltc::ledger::ClientDatabase;
use ltc::line::process_line;
use ltc::report::{format_client_time, sort_client_times, ClientTime};

fn session(db: &mut ClientDatabase, id: u32, name: &str, start: i64, end: i64) {
    db.log_connect(id, name, start);
    db.log_disconnect(id, end);
}

#[test]
fn report_of_an_empty_ledger_is_empty() {
    assert!(sort_client_times(&ClientDatabase::new()).is_empty());
}

#[test]
fn report_lists_the_longest_total_first() {
    let mut db = ClientDatabase::new();
    session(&mut db, 1, "short", 10, 15);
    session(&mut db, 2, "long", 10, 500);
    session(&mut db, 3, "middle", 10, 100);
    db.log_connect(4, "open", 10);
    let lines = sort_client_times(&db);
    let ids: Vec<u32> = lines.iter().map(|line| line.id).collect();
    assert_eq!(ids, vec![2, 3, 1, 4]);
    let totals: Vec<i64> = lines.iter().map(|line| line.total_time_connected).collect();
    assert_eq!(totals, vec![490, 90, 5, 0]);
    let names: Vec<&str> = lines.iter().map(|line| line.name.as_str()).collect();
    assert_eq!(names, vec!["long", "middle", "short", "open"]);
}

#[test]
fn report_is_non_increasing_and_complete() {
    let mut db = ClientDatabase::new();
    for id in 0..150u32 {
        session(&mut db, id, "client", 1, 1 + i64::from((id * 37) % 11));
    }
    let lines = sort_client_times(&db);
    assert_eq!(lines.len(), 150);
    for pair in lines.windows(2) {
        assert!(pair[0].total_time_connected >= pair[1].total_time_connected);
    }
    let mut ids: Vec<u32> = lines.iter().map(|line| line.id).collect();
    ids.sort();
    assert_eq!(ids, (0..150).collect::<Vec<u32>>());
}

#[test]
fn equal_totals_are_listed_by_identity() {
    let mut db = ClientDatabase::new();
    session(&mut db, 30, "c", 1, 8);
    session(&mut db, 10, "a", 1, 8);
    session(&mut db, 20, "b", 1, 8);
    session(&mut db, 5, "top", 1, 9);
    let ids: Vec<u32> = sort_client_times(&db).iter().map(|line| line.id).collect();
    assert_eq!(ids, vec![5, 10, 20, 30]);
}

#[test]
fn negative_totals_come_last() {
    let mut db = ClientDatabase::new();
    session(&mut db, 1, "back", 100, 40);
    session(&mut db, 2, "none", 100, 100);
    let ids: Vec<u32> = sort_client_times(&db).iter().map(|line| line.id).collect();
    assert_eq!(ids, vec![2, 1]);
}

#[test]
fn a_line_is_total_tab_name() {
    let line = ClientTime { id: 5, name: String::from("Bob"), total_time_connected: 60 };
    assert_eq!(format_client_time(&line), "60\tBob");
    let empty = ClientTime { id: 1, name: String::new(), total_time_connected: 0 };
    assert_eq!(format_client_time(&empty), "0\t");
    let odd = ClientTime { id: 1, name: String::from("Jörg\t☃"), total_time_connected: -12 };
    assert_eq!(format_client_time(&odd), "-12\tJörg\t☃");
}

#[test]
fn one_session_gives_one_line() {
    let mut db = ClientDatabase::new();
    let lines = [
        "1970-01-01 00:01:40.000000|INFO|VirtualServerBase|1|client connected 'Bob'(id:5) from 10.0.0.1:1",
        "1970-01-01 00:02:40.000000|INFO|VirtualServerBase|1|client disconnected 'Bob'(id:5) reason 'reasonmsg=bye'",
    ];
    for line in lines {
        assert_eq!(process_line(line, &mut db), Ok(()));
    }
    db.clear_clients();
    let report: Vec<String> = sort_client_times(&db).iter().map(format_client_time).collect();
    assert_eq!(report, vec![String::from("60\tBob")]);
}
