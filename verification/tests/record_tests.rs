use durable_kv::record::{checksum_of, LogEntry, LogEntryCreationError};
use durable_kv::text::{compare_keys, str_eq, to_hex, KeyOrder};

const SET_A_1: &str = "32685fbf7bdf01185728dce87f12399e87597037";
const DEL_A: &str = "718eba8d2410fb75b9594753128e02780fed6aba";

#[test]
fn checksum_is_the_sha1_of_tag_key_and_value() {
    // sha1("hello world")
    assert_eq!(checksum_of("hello", " ", "world"), "2aae6c35c94fcfb415dbe95f408b9ce91ee846ed");
    assert_eq!(checksum_of("SET", "a", "1"), SET_A_1);
    assert_eq!(checksum_of("DEL", "a", ""), DEL_A);
    assert_eq!(checksum_of("SET", "key", "€"), "d0bf56bf0c5bdbdb818cd8d08b962cefa72e445a");
}

#[test]
fn checksum_is_taken_of_the_concatenation() {
    assert_eq!(checksum_of("SET", "ab", "1"), checksum_of("SET", "a", "b1"));
    assert_eq!(checksum_of("SET", "ab", "1"), "9c30cb6717330579a20852959c42ebce72be438d");
}

#[test]
fn create_set_fills_the_checksum() {
    let entry = LogEntry::create_set("a", "1");
    assert_eq!(
        entry,
        LogEntry::Put { key: "a".to_string(), value: "1".to_string(), checksum: SET_A_1.to_string() }
    );
    assert_eq!(entry.key(), "a");
}

#[test]
fn create_delete_fills_the_checksum() {
    let entry = LogEntry::create_delete("a");
    assert_eq!(entry, LogEntry::Del { key: "a".to_string(), checksum: DEL_A.to_string() });
    assert_eq!(entry.key(), "a");
}

#[test]
fn encode_writes_fields_separated_by_one_space() {
    assert_eq!(LogEntry::create_set("a", "1").encode(), format!("SET a 1 {}", SET_A_1));
    assert_eq!(LogEntry::create_delete("a").encode(), format!("DEL a {}", DEL_A));
    assert_eq!(LogEntry::create_set("a", "1").to_line(), format!("SET a 1 {}\n", SET_A_1));
    assert_eq!(LogEntry::create_delete("a").to_line(), format!("DEL a {}\n", DEL_A));
}

#[test]
fn decode_reads_back_an_encoded_record() {
    for (key, value) in [("a", "1"), ("key", "€"), ("", ""), ("a\nb", "tab\there"), ("SET", "DEL")] {
        let set = LogEntry::create_set(key, value);
        assert_eq!(LogEntry::try_from(set.encode().as_str()), Ok(set));
        let delete = LogEntry::create_delete(key);
        assert_eq!(LogEntry::try_from(delete.encode().as_str()), Ok(delete));
    }
}

#[test]
fn decode_keeps_key_and_value_apart() {
    let line = format!("SET a 1 {}", SET_A_1);
    assert_eq!(
        LogEntry::try_from(line.as_str()),
        Ok(LogEntry::Put { key: "a".to_string(), value: "1".to_string(), checksum: SET_A_1.to_string() })
    );
}

#[test]
fn decode_ignores_fields_after_the_checksum() {
    let line = format!("DEL a {} and more", DEL_A);
    assert_eq!(LogEntry::try_from(line.as_str()), Ok(LogEntry::create_delete("a")));
}

#[test]
fn decode_rejects_missing_fields() {
    let malformed = Err(LogEntryCreationError::InvalidEntryFormat);
    assert_eq!(LogEntry::try_from(""), malformed);
    assert_eq!(LogEntry::try_from("SET"), malformed);
    assert_eq!(LogEntry::try_from("SET a"), malformed);
    assert_eq!(LogEntry::try_from("SET a 1"), malformed);
    assert_eq!(LogEntry::try_from("DEL"), malformed);
    assert_eq!(LogEntry::try_from("DEL a"), malformed);
    assert_eq!(LogEntry::try_from("FOO"), malformed);
}

#[test]
fn decode_rejects_unknown_tag() {
    let unknown = Err(LogEntryCreationError::InvalidDiscriminant);
    assert_eq!(LogEntry::try_from(format!("PUT a 1 {}", SET_A_1).as_str()), unknown);
    assert_eq!(LogEntry::try_from(format!("set a 1 {}", SET_A_1).as_str()), unknown);
    assert_eq!(LogEntry::try_from(" SET a"), unknown);
    assert_eq!(LogEntry::try_from("FOO a"), unknown);
}

#[test]
fn decode_rejects_wrong_checksum() {
    let mismatch = Err(LogEntryCreationError::IncorrectChecksum);
    assert_eq!(LogEntry::try_from(format!("SET a 2 {}", SET_A_1).as_str()), mismatch);
    assert_eq!(LogEntry::try_from(format!("SET b 1 {}", SET_A_1).as_str()), mismatch);
    assert_eq!(LogEntry::try_from(format!("DEL a {}", SET_A_1).as_str()), mismatch);
    assert_eq!(LogEntry::try_from(format!("SET a 1 {}", DEL_A).as_str()), mismatch);
    assert_eq!(LogEntry::try_from("SET a 1 "), mismatch);
    assert_eq!(LogEntry::try_from(format!("SET a  1 {}", SET_A_1).as_str()), mismatch);
    assert_eq!(LogEntry::try_from(format!("SET a 1 {}", SET_A_1.to_uppercase()).as_str()), mismatch);
}

#[test]
fn every_single_character_mutation_of_the_checksum_is_detected() {
    let line = LogEntry::create_set("a", "1").encode();
    let start = line.len() - 40;
    for at in start..line.len() {
        for replacement in ['0', 'f', 'g', ' ', 'A', '\n', '~'] {
            let mut bytes = line.clone().into_bytes();
            if bytes[at] == replacement as u8 {
                continue;
            }
            bytes[at] = replacement as u8;
            let mutated = String::from_utf8(bytes).unwrap();
            assert_eq!(
                LogEntry::try_from(mutated.as_str()),
                Err(LogEntryCreationError::IncorrectChecksum)
            );
        }
    }
}

#[test]
fn hex_has_two_lower_case_digits_per_byte() {
    assert_eq!(to_hex(&[]), "");
    assert_eq!(to_hex(&[0x00, 0x0f, 0xa0, 0xff, 0x10]), "000fa0ff10");
    assert_eq!(to_hex(&[0x12, 0x34, 0xab, 0xcd, 0xef]), "1234abcdef");
}

#[test]
fn decode_cuts_between_characters_of_any_width() {
    for (key, value) in [("é", "ü"), ("日本語", "값"), ("a€", "€b"), ("🙂", "🙃🙃")] {
        let set = LogEntry::create_set(key, value);
        let line = set.encode();
        assert_eq!(line, format!("SET {} {} {}", key, value, checksum_of("SET", key, value)));
        assert_eq!(LogEntry::try_from(line.as_str()), Ok(set));
    }
    // An empty key and an empty value are fields of their own.
    let line = format!("SET   {}", checksum_of("SET", "", ""));
    assert_eq!(LogEntry::try_from(line.as_str()), Ok(LogEntry::create_set("", "")));
}

#[test]
fn strings_compare_by_their_bytes() {
    assert_eq!(compare_keys("a", "b"), KeyOrder::Before);
    assert_eq!(compare_keys("b", "a"), KeyOrder::After);
    assert_eq!(compare_keys("a", "a"), KeyOrder::Same);
    assert_eq!(compare_keys("", ""), KeyOrder::Same);
    assert_eq!(compare_keys("", "a"), KeyOrder::Before);
    assert_eq!(compare_keys("a", "ab"), KeyOrder::Before);
    assert_eq!(compare_keys("ab", "a"), KeyOrder::After);
    assert_eq!(compare_keys("Z", "a"), KeyOrder::Before);
    assert_eq!(compare_keys("z", "é"), KeyOrder::Before);
    assert_eq!(compare_keys("10", "9"), KeyOrder::Before);
    assert!(str_eq("ciao", "ciao"));
    assert!(!str_eq("ciao", "ciao "));
    assert!(!str_eq("e", "é"));
}
