use rolling_log::naming::{get_id, get_new_file, join_path, log_name};

#[test]
fn main_get_id_test() {
    assert_eq!(get_id("01.log"), Some(1));
    assert_eq!(get_id("2311.log"), Some(2311));
}

#[test]
fn rolling_writer_get_id_test() {
    assert_eq!(get_id("01.log"), Some(1));
    assert_eq!(get_id("2311.log"), Some(2311));
}

#[test]
fn get_id_ignores_foreign_names() {
    assert_eq!(get_id("notes.txt"), None);
    assert_eq!(get_id(".log"), None);
    assert_eq!(get_id("log"), None);
    assert_eq!(get_id(""), None);
    assert_eq!(get_id("x1.log"), None);
    assert_eq!(get_id("1x.log"), None);
    assert_eq!(get_id("+5.log"), None);
    assert_eq!(get_id("007.txt"), None);
    assert_eq!(get_id("007.log.bak"), None);
}

#[test]
fn get_id_reads_padded_and_large_ids() {
    assert_eq!(get_id("000.log"), Some(0));
    assert_eq!(get_id("007.log"), Some(7));
    assert_eq!(get_id("0000000042.log"), Some(42));
    let max = format!("{}.log", usize::MAX);
    assert_eq!(get_id(&max), Some(usize::MAX));
    let past = format!("{}0.log", usize::MAX);
    assert_eq!(get_id(&past), None);
}

#[test]
fn names_are_padded_to_three_digits() {
    assert_eq!(log_name(0), "000.log");
    assert_eq!(log_name(7), "007.log");
    assert_eq!(log_name(42), "042.log");
    assert_eq!(log_name(999), "999.log");
    assert_eq!(log_name(2311), "2311.log");
}

#[test]
fn new_file_path_and_name() {
    let (path, name) = get_new_file("logs", 7);
    assert_eq!(path, "logs/007.log");
    assert_eq!(name, "007.log");
    let (path, name) = get_new_file("/var/log/app", 2311);
    assert_eq!(path, "/var/log/app/2311.log");
    assert_eq!(name, "2311.log");
    assert_eq!(join_path("a", "b.log"), "a/b.log");
}

#[test]
fn naming_round_trip() {
    for id in [0usize, 7, 999, 2311, 1000, 99, 100] {
        let (_, name) = get_new_file("d", id);
        let (_, again) = get_new_file("d", id);
        assert_eq!(name, again);
        assert_eq!(get_id(&name), Some(id));
    }
}
