use durable_kv::log::AppendOnlyLogDB;
use durable_kv::record::{LogEntry, LogEntryCreationError};

const SET_A_1: &str = "32685fbf7bdf01185728dce87f12399e87597037";
const SET_A_2: &str = "76c9a6d49249b39e788fe2fef7d314d6c38402fb";
const SET_B_2: &str = "caf34819059ae679cd6a53cf8ad6485284773736";
const DEL_A: &str = "718eba8d2410fb75b9594753128e02780fed6aba";

#[test]
fn test_set() {
    let mut log = AppendOnlyLogDB::new("/tmp/append-only-log");
    log.set("a", "ciao");
    let val = log.get("a");

    assert_eq!(val, Some("ciao"));
}

#[test]
fn test_delete() {
    let mut log = AppendOnlyLogDB::new("/tmp/append-only-log");
    log.set("a", "ciao");
    let val = log.get("a");

    assert_eq!(val, Some("ciao"));

    log.delete("a");

    let val = log.get("a");
    assert_eq!(val, None);
}

#[test]
fn new_log_is_empty_and_keeps_its_path() {
    let log = AppendOnlyLogDB::new("/tmp/append-only-log");
    assert_eq!(log.len(), 0);
    assert_eq!(log.path(), "/tmp/append-only-log");
    assert_eq!(log.get("a"), None);
}

#[test]
fn last_writer_wins() {
    let mut log = AppendOnlyLogDB::new("log");
    log.set("a", "1");
    log.set("a", "2");
    assert_eq!(log.get("a"), Some("2"));
    log.delete("a");
    assert_eq!(log.get("a"), None);
    assert_eq!(log.len(), 3);
    log.set("a", "3");
    assert_eq!(log.get("a"), Some("3"));
}

#[test]
fn other_keys_are_left_alone() {
    let mut log = AppendOnlyLogDB::new("log");
    log.set("a", "1");
    log.set("b", "2");
    log.delete("a");
    assert_eq!(log.get("b"), Some("2"));
    log.delete("c");
    assert_eq!(log.get("b"), Some("2"));
    assert_eq!(log.get("c"), None);
}

#[test]
fn set_and_delete_return_the_line_to_persist() {
    let mut log = AppendOnlyLogDB::new("log");
    assert_eq!(log.set("a", "1"), format!("SET a 1 {}\n", SET_A_1));
    assert_eq!(log.delete("a"), format!("DEL a {}\n", DEL_A));
    assert_eq!(log.set("a", "ciao"), "SET a ciao 81ff44211e443066d3f23020e532ec07c06126d8\n");
}

#[test]
fn append_adds_a_record_made_elsewhere() {
    let mut log = AppendOnlyLogDB::new("log");
    log.append(LogEntry::create_set("a", "1"));
    log.append(LogEntry::create_delete("b"));
    assert_eq!(log.len(), 2);
    assert_eq!(log.get("a"), Some("1"));
    assert_eq!(log.get("b"), None);
}

#[test]
fn replay_of_set_then_delete_leaves_key_absent() {
    let content = format!("SET a 1 {}\nDEL a {}\n", SET_A_1, DEL_A);
    let log = AppendOnlyLogDB::from_path("log", &content).unwrap();
    assert_eq!(log.len(), 2);
    assert_eq!(log.get("a"), None);
    assert_eq!(log.get("b"), None);
    assert_eq!(log.path(), "log");
}

#[test]
fn replay_restores_the_latest_values() {
    let content = format!("SET a 1 {}\nSET b 2 {}\nSET a 2 {}\n", SET_A_1, SET_B_2, SET_A_2);
    let log = AppendOnlyLogDB::from_path("log", &content).unwrap();
    assert_eq!(log.len(), 3);
    assert_eq!(log.get("a"), Some("2"));
    assert_eq!(log.get("b"), Some("2"));
}

#[test]
fn replay_of_empty_content_is_an_empty_log() {
    let log = AppendOnlyLogDB::from_path("log", "").unwrap();
    assert_eq!(log.len(), 0);
    assert_eq!(log.get("a"), None);
}

#[test]
fn replay_reads_a_last_line_without_line_feed() {
    let content = format!("SET a 1 {}\nSET b 2 {}", SET_A_1, SET_B_2);
    let log = AppendOnlyLogDB::from_path("log", &content).unwrap();
    assert_eq!(log.len(), 2);
    assert_eq!(log.get("b"), Some("2"));
}

#[test]
fn replay_of_what_was_written_gives_the_same_log() {
    let mut written = AppendOnlyLogDB::new("log");
    let mut content = String::new();
    content.push_str(&written.set("a", "1"));
    content.push_str(&written.set("b", "x"));
    content.push_str(&written.delete("a"));
    content.push_str(&written.set("c", "€"));
    content.push_str(&written.set("b", "y"));
    let replayed = AppendOnlyLogDB::from_path("log", &content).unwrap();
    assert_eq!(replayed.len(), written.len());
    for key in ["a", "b", "c", "d"] {
        assert_eq!(replayed.get(key), written.get(key));
    }
    assert_eq!(replayed.get("a"), None);
    assert_eq!(replayed.get("b"), Some("y"));
    assert_eq!(replayed.get("c"), Some("€"));
}

#[test]
fn replay_fails_on_a_flipped_checksum_character() {
    let good = format!("SET a 1 {}\nDEL a {}\n", SET_A_1, DEL_A);
    let first_checksum = "SET a 1 ".len();
    let second_checksum = good.len() - 41;
    for at in [first_checksum, first_checksum + 39, second_checksum, second_checksum + 39] {
        let mut bytes = good.clone().into_bytes();
        bytes[at] = if bytes[at] == b'0' { b'1' } else { b'0' };
        let corrupted = String::from_utf8(bytes).unwrap();
        assert_eq!(
            AppendOnlyLogDB::from_path("log", &corrupted).err(),
            Some(LogEntryCreationError::IncorrectChecksum)
        );
    }
}

#[test]
fn replay_fails_with_the_error_of_the_first_bad_line() {
    let good = format!("SET a 1 {}", SET_A_1);
    let malformed = format!("{}\nSET a\nFOO a b\n", good);
    assert_eq!(
        AppendOnlyLogDB::from_path("log", &malformed).err(),
        Some(LogEntryCreationError::InvalidEntryFormat)
    );
    let unknown = format!("{}\nFOO a b\nSET a\n", good);
    assert_eq!(
        AppendOnlyLogDB::from_path("log", &unknown).err(),
        Some(LogEntryCreationError::InvalidDiscriminant)
    );
    let truncated = format!("{}\nSET b 2 caf348", good);
    assert_eq!(
        AppendOnlyLogDB::from_path("log", &truncated).err(),
        Some(LogEntryCreationError::IncorrectChecksum)
    );
    let blank = format!("{}\n\n{}\n", good, good);
    assert_eq!(
        AppendOnlyLogDB::from_path("log", &blank).err(),
        Some(LogEntryCreationError::InvalidEntryFormat)
    );
}
