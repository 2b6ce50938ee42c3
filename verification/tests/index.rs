use ltc::index::{
    compile_logs, creation_time, date_entry, order_logs, select_logs, Candidate, ListedFile,
    LogFile, UndatedSegment,
};

fn listed(file_name: &str) -> ListedFile {
    ListedFile {
        path_name: format!("/var/log/ts3/{}", file_name),
        file_name: String::from(file_name),
        is_dir: false,
    }
}

fn candidate(path_name: &str, is_dir: bool, creation_time: Option<i64>) -> Candidate {
    let file_name = path_name.rsplit('/').next().unwrap_or(path_name);
    Candidate {
        path_name: String::from(path_name),
        file_name: String::from(file_name),
        is_dir,
        creation_time,
    }
}

fn names(logs: &Vec<LogFile>) -> Vec<&str> {
    logs.iter().map(|log| log.name.as_str()).collect()
}

#[test]
fn creation_time_decodes_the_file_name() {
    assert_eq!(creation_time("ts3server_2019-01-01__12_00_00.123456_1.log"), Some(1546344000));
    assert_eq!(creation_time("ts3server_1970-01-01__00_00_00.000000_1.log"), Some(0));
    assert_eq!(creation_time("ts3server_1970-01-01__00_01_40"), Some(100));
}

#[test]
fn creation_time_of_an_unreadable_name_is_none() {
    assert_eq!(creation_time(""), None);
    assert_eq!(creation_time("ts3server_1.log"), None);
    assert_eq!(creation_time("ts3server_2019-01-01__12_00_0"), None);
    assert_eq!(creation_time("ts3server_2019-01-01 12:00:00.123456_1.log"), None);
    assert_eq!(creation_time("ts3server_2019-02-30__12_00_00.123456_1.log"), None);
    assert_eq!(creation_time("server_2019-01-01__12_00_00.123456_1.log"), None);
    assert_eq!(creation_time("ts3sérver_2019-01-01__12_00_00.123456_1.log"), None);
}

#[test]
fn date_entry_keeps_path_and_kind() {
    let dated = date_entry(&listed("ts3server_2019-01-01__12_00_00.123456_1.log"));
    assert_eq!(dated.path_name, "/var/log/ts3/ts3server_2019-01-01__12_00_00.123456_1.log");
    assert_eq!(dated.file_name, "ts3server_2019-01-01__12_00_00.123456_1.log");
    assert!(!dated.is_dir);
    assert_eq!(dated.creation_time, Some(1546344000));
    let plain = date_entry(&listed("notes.txt"));
    assert_eq!(plain.creation_time, None);
}

#[test]
fn order_logs_puts_the_oldest_first() {
    let logs = vec![
        LogFile { creation_time: 300, name: String::from("c") },
        LogFile { creation_time: 100, name: String::from("a") },
        LogFile { creation_time: 200, name: String::from("b") },
    ];
    let ordered = order_logs(&logs);
    assert_eq!(names(&ordered), vec!["a", "b", "c"]);
    let times: Vec<i64> = ordered.iter().map(|log| log.creation_time).collect();
    assert_eq!(times, vec![100, 200, 300]);
}

#[test]
fn order_logs_keeps_files_of_equal_time_as_listed() {
    let logs = vec![
        LogFile { creation_time: 5, name: String::from("first") },
        LogFile { creation_time: 1, name: String::from("old") },
        LogFile { creation_time: 5, name: String::from("second") },
    ];
    assert_eq!(names(&order_logs(&logs)), vec!["old", "first", "second"]);
    assert!(order_logs(&Vec::new()).is_empty());
}

#[test]
fn select_logs_takes_primary_segments_only() {
    let candidates = vec![
        candidate("dir/b_1.log", false, Some(20)),
        candidate("dir/sub_1.log", true, Some(5)),
        candidate("dir/b_2.log", false, Some(1)),
        candidate("dir/a_1.log", false, Some(10)),
        candidate("dir/readme", false, None),
        candidate("dir/undated_dir_1.log", true, None),
    ];
    let logs = select_logs(&candidates).unwrap();
    assert_eq!(names(&logs), vec!["dir/a_1.log", "dir/b_1.log"]);
    assert_eq!(logs[0].creation_time, 10);
    assert_eq!(logs[1].creation_time, 20);
}

#[test]
fn select_logs_fails_on_the_first_undated_primary_segment() {
    let candidates = vec![
        candidate("dir/a_1.log", false, Some(10)),
        candidate("dir/other", false, None),
        candidate("dir/bad_1.log", false, None),
        candidate("dir/worse_1.log", false, None),
    ];
    assert_eq!(select_logs(&candidates).err(), Some(UndatedSegment { position: 2 }));
}

#[test]
fn select_logs_of_nothing_is_empty() {
    assert!(select_logs(&Vec::new()).unwrap().is_empty());
}

#[test]
fn the_marker_counts_in_the_file_name_only() {
    let candidates = vec![
        candidate("logs_1.log.d/ts3server.txt", false, Some(3)),
        candidate("logs_1.log.d/notes.txt", false, None),
        candidate("logs_1.log.d/a_1.log", false, Some(4)),
    ];
    assert_eq!(names(&select_logs(&candidates).unwrap()), vec!["logs_1.log.d/a_1.log"]);
}

#[test]
fn the_marker_may_stand_anywhere_in_the_file_name() {
    let candidates = vec![candidate("dir/x_1.log.old", false, Some(3))];
    assert_eq!(names(&select_logs(&candidates).unwrap()), vec!["dir/x_1.log.old"]);
}

#[test]
fn a_marker_in_the_directory_makes_no_file_a_log() {
    let entries = vec![ListedFile {
        path_name: String::from("/data/run_1.log.d/notes.txt"),
        file_name: String::from("notes.txt"),
        is_dir: false,
    }];
    assert!(compile_logs(&entries).unwrap().is_empty());
}

#[test]
fn every_marker_file_is_listed_once() {
    let entries = vec![
        ListedFile {
            path_name: String::from("/data/run_1.log.d/ts3server_2019-02-01__00_00_00.000000_1.log"),
            file_name: String::from("ts3server_2019-02-01__00_00_00.000000_1.log"),
            is_dir: false,
        },
        ListedFile {
            path_name: String::from("/data/run_1.log.d/ts3server_2019-01-01__00_00_00.000000_0.log"),
            file_name: String::from("ts3server_2019-01-01__00_00_00.000000_0.log"),
            is_dir: false,
        },
        ListedFile {
            path_name: String::from("/data/run_1.log.d/ts3server_2019-01-01__00_00_00.000000_1.log"),
            file_name: String::from("ts3server_2019-01-01__00_00_00.000000_1.log"),
            is_dir: false,
        },
        ListedFile {
            path_name: String::from("/data/run_1.log.d/sub_1.log"),
            file_name: String::from("sub_1.log"),
            is_dir: true,
        },
    ];
    let logs = compile_logs(&entries).unwrap();
    assert_eq!(
        names(&logs),
        vec![
            "/data/run_1.log.d/ts3server_2019-01-01__00_00_00.000000_1.log",
            "/data/run_1.log.d/ts3server_2019-02-01__00_00_00.000000_1.log",
        ]
    );
}

#[test]
fn compile_logs_orders_by_creation_time_not_by_listing() {
    let entries = vec![
        listed("ts3server_2019-03-01__00_00_00.000000_1.log"),
        listed("ts3server_2019-01-01__00_00_00.000000_1.log"),
        listed("ts3server_2019-01-15__00_00_00.000000_2.log"),
        ListedFile {
            path_name: String::from("/var/log/ts3/old_1.log"),
            file_name: String::from("old_1.log"),
            is_dir: true,
        },
        listed("ts3server_2019-02-01__00_00_00.000000_1.log"),
        listed("notes.txt"),
    ];
    let logs = compile_logs(&entries).unwrap();
    assert_eq!(
        names(&logs),
        vec![
            "/var/log/ts3/ts3server_2019-01-01__00_00_00.000000_1.log",
            "/var/log/ts3/ts3server_2019-02-01__00_00_00.000000_1.log",
            "/var/log/ts3/ts3server_2019-03-01__00_00_00.000000_1.log",
        ]
    );
    assert_eq!(logs[0].creation_time, 1546300800);
    assert_eq!(logs[1].creation_time, 1548979200);
    assert_eq!(logs[2].creation_time, 1551398400);
}

#[test]
fn compile_logs_fails_on_a_primary_segment_without_time() {
    let entries = vec![
        listed("ts3server_2019-03-01__00_00_00.000000_1.log"),
        listed("ts3server_2019-99-01__00_00_00.000000_1.log"),
        listed("short_1.log"),
    ];
    assert_eq!(compile_logs(&entries).err(), Some(UndatedSegment { position: 1 }));
    let short = vec![listed("short_1.log")];
    assert_eq!(compile_logs(&short).err(), Some(UndatedSegment { position: 0 }));
}

#[test]
fn compile_logs_of_an_empty_listing_is_empty() {
    assert!(compile_logs(&Vec::new()).unwrap().is_empty());
}
