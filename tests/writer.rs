use rolling_log::writer::RollingWriter;

fn names(list: &[&str]) -> Vec<String> {
    list.iter().map(|s| s.to_string()).collect()
}

#[test]
fn empty_directory_starts_at_zero() {
    let (w, rot) = RollingWriter::new("logs".to_string(), vec![], 100, 3);
    assert_eq!(rot.create, "logs/000.log");
    assert!(rot.delete.is_empty());
    assert_eq!(w.known_files(), names(&["000.log"]));
    assert_eq!(w.next_file_id(), 1);
    assert_eq!(w.bytes_written(), 0);
}

#[test]
fn recovery_continues_after_existing_files() {
    let entries = names(&["003.log", "notes.txt", "000.log", "004.log", "001.log", "002.log"]);
    let (mut w, rot) = RollingWriter::new("d".to_string(), entries, 100, 10);
    assert_eq!(rot.create, "d/005.log");
    assert!(rot.delete.is_empty());
    assert_eq!(
        w.known_files(),
        names(&["000.log", "001.log", "002.log", "003.log", "004.log", "005.log"])
    );
    assert_eq!(w.next_file_id(), 6);
    let rot = w.roll();
    assert_eq!(rot.create, "d/006.log");
    assert!(rot.delete.is_empty());
}

#[test]
fn recovery_applies_retention_at_once() {
    let entries = names(&["000.log", "001.log", "002.log", "003.log", "004.log", "notes.txt"]);
    let (w, rot) = RollingWriter::new("d".to_string(), entries, 100, 3);
    assert_eq!(rot.create, "d/005.log");
    assert_eq!(rot.delete, names(&["d/000.log", "d/001.log", "d/002.log"]));
    assert_eq!(w.known_files(), names(&["003.log", "004.log", "005.log"]));
}

#[test]
fn recovery_uses_largest_id_with_gaps() {
    let entries = names(&["9.log", "02.log", "readme"]);
    let (w, rot) = RollingWriter::new("d".to_string(), entries, 100, 5);
    assert_eq!(rot.create, "d/010.log");
    assert_eq!(w.known_files(), names(&["02.log", "9.log", "010.log"]));
    assert_eq!(w.next_file_id(), 11);
}

#[test]
fn writes_within_budget_never_roll() {
    let (mut w, _) = RollingWriter::new("d".to_string(), vec![], 10, 2);
    for len in [3usize, 3, 4] {
        assert!(w.prepare_write(len).is_none());
        w.commit_write(len);
    }
    assert_eq!(w.bytes_written(), 10);
    assert_eq!(w.known_files(), names(&["000.log"]));
}

#[test]
fn write_past_budget_rolls_once_first() {
    let (mut w, _) = RollingWriter::new("d".to_string(), vec![], 10, 5);
    assert!(w.prepare_write(8).is_none());
    w.commit_write(8);
    let rot = w.prepare_write(3).expect("a roll");
    assert_eq!(rot.create, "d/001.log");
    assert!(rot.delete.is_empty());
    assert_eq!(w.bytes_written(), 0);
    w.commit_write(3);
    assert_eq!(w.bytes_written(), 3);
    assert_eq!(w.known_files(), names(&["000.log", "001.log"]));
}

#[test]
fn oversized_write_goes_alone_into_a_new_file() {
    let (mut w, _) = RollingWriter::new("d".to_string(), vec![], 10, 5);
    let rot = w.prepare_write(25).expect("a roll");
    assert_eq!(rot.create, "d/001.log");
    w.commit_write(25);
    assert_eq!(w.bytes_written(), 25);
    let rot = w.prepare_write(1).expect("a roll");
    assert_eq!(rot.create, "d/002.log");
}

#[test]
fn three_six_byte_lines_keep_two_files() {
    let (mut w, rot) = RollingWriter::new("d".to_string(), vec![], 10, 2);
    assert_eq!(rot.create, "d/000.log");
    assert!(w.prepare_write(6).is_none());
    w.commit_write(6);
    let first = w.prepare_write(6).expect("first roll");
    assert_eq!(first.create, "d/001.log");
    assert!(first.delete.is_empty());
    w.commit_write(6);
    let second = w.prepare_write(6).expect("second roll");
    assert_eq!(second.create, "d/002.log");
    assert_eq!(second.delete, names(&["d/000.log"]));
    w.commit_write(6);
    assert_eq!(w.known_files(), names(&["001.log", "002.log"]));
    assert_eq!(w.bytes_written(), 6);
}

#[test]
fn retention_keeps_newest_files() {
    let (mut w, _) = RollingWriter::new("d".to_string(), vec![], 1, 3);
    let mut deleted = Vec::new();
    for _ in 0..6 {
        let rot = w.roll();
        deleted.extend(rot.delete);
        assert!(w.known_files().len() <= 3);
    }
    assert_eq!(w.known_files(), names(&["004.log", "005.log", "006.log"]));
    assert_eq!(deleted, names(&["d/000.log", "d/001.log", "d/002.log", "d/003.log"]));
}

#[test]
fn zero_retention_keeps_only_the_active_file() {
    let entries = names(&["000.log", "001.log"]);
    let (mut w, rot) = RollingWriter::new("d".to_string(), entries, 10, 0);
    assert_eq!(rot.delete, names(&["d/000.log", "d/001.log"]));
    assert_eq!(w.known_files(), names(&["002.log"]));
    let rot = w.roll();
    assert_eq!(rot.create, "d/003.log");
    assert_eq!(rot.delete, names(&["d/002.log"]));
    assert_eq!(w.known_files(), names(&["003.log"]));
}
