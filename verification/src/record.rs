//! Log records and their line format.
//!
//! A record is written as one line of text whose fields are separated by a single
//! space: `SET <key> <value> <checksum>` or `DEL <key> <checksum>`. The checksum
//! is the SHA-1 digest of the tag, the key and (for `SET`) the value, one after
//! the other, written as forty hexadecimal digits.

use crate::digest::{sha1, sha1_digest};
use crate::text::{
    hex_chars, lemma_hex_chars_plain, lemma_split_first, lemma_split_first_piece,
    lemma_split_whole, lemma_utf8_concat, lemma_utf8_injective, split_fields, split_on, str_eq,
    to_hex,
};
use vstd::prelude::*;
use vstd::string::*;
use vstd::utf8::*;

verus! {

/// The byte that separates the fields of a record line: a space.
pub const SEPARATOR: u8 = 0x20;

/// One entry of the log: a key set to a value, or a key deleted.
#[derive(Debug, PartialEq, Eq, Clone)]
pub enum LogEntry {
    Put { key: String, value: String, checksum: String },
    Del { key: String, checksum: String },
}

/// Why a line is not a record.
#[derive(Debug, Clone, Copy, PartialEq, Eq, Structural)]
pub enum LogEntryCreationError {
    /// The first field is neither `SET` nor `DEL`.
    InvalidDiscriminant,
    /// A field that the record needs is missing.
    InvalidEntryFormat,
    /// The stored checksum is not the digest of the other fields.
    IncorrectChecksum,
}

/// A record as a mathematical value: what a [`LogEntry`] holds.
pub enum Record {
    Put { key: Seq<char>, value: Seq<char>, checksum: Seq<char> },
    Del { key: Seq<char>, checksum: Seq<char> },
}

/// The bytes of the tag `SET`.
pub open spec fn set_tag() -> Seq<u8> {
    encode_utf8("SET"@)
}

/// The bytes of the tag `DEL`.
pub open spec fn del_tag() -> Seq<u8> {
    encode_utf8("DEL"@)
}

/// The checksum text for a tag, a key and a value: the digest of their bytes one
/// after the other, in hexadecimal. A record without a value passes the empty
/// sequence.
pub open spec fn checksum_text(tag: Seq<u8>, key: Seq<u8>, value: Seq<u8>) -> Seq<char> {
    hex_chars(sha1_digest(tag + key + value))
}

impl Record {
    /// The record that sets `key` to `value`, with the checksum that this calls
    /// for.
    pub open spec fn new_set(key: Seq<char>, value: Seq<char>) -> Record {
        Record::Put {
            key,
            value,
            checksum: checksum_text(set_tag(), encode_utf8(key), encode_utf8(value)),
        }
    }

    /// The record that deletes `key`, with the checksum that this calls for.
    pub open spec fn new_delete(key: Seq<char>) -> Record {
        Record::Del { key, checksum: checksum_text(del_tag(), encode_utf8(key), Seq::<u8>::empty()) }
    }

    /// The key that the record is about.
    pub open spec fn key(self) -> Seq<char> {
        match self {
            Record::Put { key, .. } => key,
            Record::Del { key, .. } => key,
        }
    }

    /// The checksum that the record holds.
    pub open spec fn checksum(self) -> Seq<char> {
        match self {
            Record::Put { checksum, .. } => checksum,
            Record::Del { checksum, .. } => checksum,
        }
    }

    /// The checksum that the record's other fields call for.
    pub open spec fn expected_checksum(self) -> Seq<char> {
        match self {
            Record::Put { key, value, .. } => checksum_text(
                set_tag(),
                encode_utf8(key),
                encode_utf8(value),
            ),
            Record::Del { key, .. } => checksum_text(
                del_tag(),
                encode_utf8(key),
                Seq::<u8>::empty(),
            ),
        }
    }

    /// Whether the stored checksum is the one that the other fields call for.
    pub open spec fn intact(self) -> bool {
        self.checksum() == self.expected_checksum()
    }

    /// What stands before the checksum in the record's line: the tag, the key
    /// and the value of a `SET`, each followed by one space.
    pub open spec fn line_prefix(self) -> Seq<u8> {
        match self {
            Record::Put { key, value, .. } => set_tag() + seq![SEPARATOR] + encode_utf8(key)
                + seq![SEPARATOR] + encode_utf8(value) + seq![SEPARATOR],
            Record::Del { key, .. } => del_tag() + seq![SEPARATOR] + encode_utf8(key)
                + seq![SEPARATOR],
        }
    }

    /// The record's line, as bytes, without a line terminator: the tag, the key,
    /// the value of a `SET`, and the checksum, with one space between them.
    pub open spec fn encoded(self) -> Seq<u8> {
        self.line_prefix() + encode_utf8(self.checksum())
    }

    /// Whether the line format can carry the record: neither the key nor the
    /// value holds a space.
    pub open spec fn representable(self) -> bool {
        match self {
            Record::Put { key, value, .. } => !encode_utf8(key).contains(SEPARATOR)
                && !encode_utf8(value).contains(SEPARATOR),
            Record::Del { key, .. } => !encode_utf8(key).contains(SEPARATOR),
        }
    }
}

impl View for LogEntry {
    type V = Record;

    open spec fn view(&self) -> Record {
        match self {
            LogEntry::Put { key, value, checksum } => Record::Put {
                key: key@,
                value: value@,
                checksum: checksum@,
            },
            LogEntry::Del { key, checksum } => Record::Del { key: key@, checksum: checksum@ },
        }
    }
}

/// What a line of bytes means: the record it spells, or the reason it spells
/// none. Fields past those that the record needs are ignored.
pub open spec fn decoded(line: Seq<u8>) -> Result<Record, LogEntryCreationError> {
    let fields = split_on(line, SEPARATOR);
    if fields.len() < 2 {
        Err(LogEntryCreationError::InvalidEntryFormat)
    } else if fields[0] == set_tag() {
        if fields.len() < 4 {
            Err(LogEntryCreationError::InvalidEntryFormat)
        } else {
            let checksum = checksum_text(set_tag(), fields[1], fields[2]);
            if fields[3] == encode_utf8(checksum) {
                Ok(
                    Record::Put {
                        key: decode_utf8(fields[1]),
                        value: decode_utf8(fields[2]),
                        checksum,
                    },
                )
            } else {
                Err(LogEntryCreationError::IncorrectChecksum)
            }
        }
    } else if fields[0] == del_tag() {
        if fields.len() < 3 {
            Err(LogEntryCreationError::InvalidEntryFormat)
        } else {
            let checksum = checksum_text(del_tag(), fields[1], Seq::<u8>::empty());
            if fields[2] == encode_utf8(checksum) {
                Ok(Record::Del { key: decode_utf8(fields[1]), checksum })
            } else {
                Err(LogEntryCreationError::IncorrectChecksum)
            }
        }
    } else {
        Err(LogEntryCreationError::InvalidDiscriminant)
    }
}

/// A space is the one byte `SEPARATOR`.
proof fn lemma_space_bytes()
    ensures
        encode_utf8(" "@) == seq![SEPARATOR],
{
    reveal_strlit(" ");
    is_ascii_chars_encode_utf8(" "@);
    assert(encode_utf8(" "@) =~= seq![SEPARATOR]);
}

/// The two tags as bytes: they differ, and neither holds a space.
pub proof fn lemma_tags()
    ensures
        set_tag() == seq![0x53u8, 0x45u8, 0x54u8],
        del_tag() == seq![0x44u8, 0x45u8, 0x4cu8],
        set_tag() != del_tag(),
        !set_tag().contains(SEPARATOR),
        !del_tag().contains(SEPARATOR),
{
    reveal_strlit("SET");
    reveal_strlit("DEL");
    is_ascii_chars_encode_utf8("SET"@);
    is_ascii_chars_encode_utf8("DEL"@);
    assert(set_tag() =~= seq![0x53u8, 0x45u8, 0x54u8]);
    assert(del_tag() =~= seq![0x44u8, 0x45u8, 0x4cu8]);
    assert(set_tag()[0] != del_tag()[0]);
}

/// The fields of a line that starts as the record's line does: the record's own
/// fields before the checksum, then whatever the rest of the line splits into.
proof fn lemma_split_line(record: Record, tail: Seq<u8>)
    requires
        record.representable(),
    ensures
        split_on(record.line_prefix() + tail, SEPARATOR) == match record {
            Record::Put { key, value, .. } => seq![
                set_tag(),
                encode_utf8(key),
                encode_utf8(value),
            ] + split_on(tail, SEPARATOR),
            Record::Del { key, .. } => seq![del_tag(), encode_utf8(key)] + split_on(
                tail,
                SEPARATOR,
            ),
        },
{
    lemma_tags();
    let sep = seq![SEPARATOR];
    match record {
        Record::Put { key, value, .. } => {
            let k = encode_utf8(key);
            let v = encode_utf8(value);
            let after_value = tail;
            let after_key = v + sep + after_value;
            let after_tag = k + sep + after_key;
            assert(record.line_prefix() + tail =~= set_tag() + sep + after_tag);
            lemma_split_first(set_tag(), after_tag, SEPARATOR);
            lemma_split_first(k, after_key, SEPARATOR);
            lemma_split_first(v, after_value, SEPARATOR);
            assert(seq![set_tag()] + (seq![k] + (seq![v] + split_on(tail, SEPARATOR))) =~= seq![
                set_tag(),
                k,
                v,
            ] + split_on(tail, SEPARATOR));
        },
        Record::Del { key, .. } => {
            let k = encode_utf8(key);
            let after_tag = k + sep + tail;
            assert(record.line_prefix() + tail =~= del_tag() + sep + after_tag);
            lemma_split_first(del_tag(), after_tag, SEPARATOR);
            lemma_split_first(k, tail, SEPARATOR);
            assert(seq![del_tag()] + (seq![k] + split_on(tail, SEPARATOR)) =~= seq![
                del_tag(),
                k,
            ] + split_on(tail, SEPARATOR));
        },
    }
}

/// Reading back the line of a record gives the record: for every record whose
/// checksum is right and whose key and value hold no space.
pub proof fn lemma_decode_encode(record: Record)
    requires
        record.intact(),
        record.representable(),
    ensures
        decoded(record.encoded()) == Ok::<Record, LogEntryCreationError>(record),
{
    let checksum = encode_utf8(record.checksum());
    lemma_tags();
    lemma_split_line(record, checksum);
    match record {
        Record::Put { key, value, .. } => {
            lemma_hex_chars_plain(sha1_digest(set_tag() + encode_utf8(key) + encode_utf8(value)));
            encode_utf8_decode_utf8(key);
            encode_utf8_decode_utf8(value);
        },
        Record::Del { key, .. } => {
            lemma_hex_chars_plain(sha1_digest(del_tag() + encode_utf8(key) + Seq::<u8>::empty()));
            encode_utf8_decode_utf8(key);
        },
    }
    lemma_split_whole(checksum, SEPARATOR);
}

/// A line whose checksum field was overwritten is refused: where the bytes that
/// stand for the checksum are replaced by any other bytes, of the same length
/// or fewer, decoding fails with `IncorrectChecksum`.
pub proof fn lemma_checksum_mutation_detected(record: Record, field: Seq<u8>)
    requires
        record.intact(),
        record.representable(),
        field.len() <= encode_utf8(record.checksum()).len(),
        field != encode_utf8(record.checksum()),
    ensures
        decoded(record.line_prefix() + field) == Err::<Record, LogEntryCreationError>(
            LogEntryCreationError::IncorrectChecksum,
        ),
{
    lemma_tags();
    lemma_split_line(record, field);
    lemma_split_first_piece(field, SEPARATOR);
}

/// Appends `more` to `buf`.
fn append_bytes(buf: &mut Vec<u8>, more: &[u8])
    ensures
        final(buf)@ == old(buf)@ + more@,
{
    let mut i: usize = 0;
    while i < more.len()
        invariant
            i <= more@.len(),
            buf@ == old(buf)@ + more@.subrange(0, i as int),
        decreases more.len() - i,
    {
        buf.push(more[i]);
        assert(more@.subrange(0, i + 1) =~= more@.subrange(0, i as int).push(more@[i as int]));
        i += 1;
    }
    assert(more@.subrange(0, i as int) =~= more@);
}

/// Computes the checksum text for a tag, a key and a value.
pub fn checksum_of(tag: &str, key: &str, value: &str) -> (text: String)
    ensures
        text@ == checksum_text(encode_utf8(tag@), encode_utf8(key@), encode_utf8(value@)),
{
    let mut buf: Vec<u8> = Vec::new();
    append_bytes(&mut buf, tag.as_bytes());
    append_bytes(&mut buf, key.as_bytes());
    append_bytes(&mut buf, value.as_bytes());
    assert(buf@ =~= encode_utf8(tag@) + encode_utf8(key@) + encode_utf8(value@));
    let digest = sha1(buf.as_slice());
    to_hex(digest.as_slice())
}

impl LogEntry {
    /// A record that sets `key` to `value`, with its checksum.
    pub fn create_set(key: &str, value: &str) -> (entry: LogEntry)
        ensures
            entry@ == Record::new_set(key@, value@),
    {
        let checksum = checksum_of("SET", key, value);
        LogEntry::Put { key: key.to_owned(), value: value.to_owned(), checksum }
    }

    /// A record that deletes `key`, with its checksum.
    pub fn create_delete(key: &str) -> (entry: LogEntry)
        ensures
            entry@ == Record::new_delete(key@),
    {
        let checksum = checksum_of("DEL", key, "");
        proof {
            reveal_strlit("");
            assert(""@ =~= Seq::<char>::empty());
        }
        LogEntry::Del { key: key.to_owned(), checksum }
    }

    /// Writes the record as a line of text, without a line terminator.
    pub fn encode(&self) -> (line: String)
        ensures
            encode_utf8(line@) == self@.encoded(),
    {
        proof {
            lemma_space_bytes();
        }
        match self {
            LogEntry::Put { key, value, checksum } => {
                let mut line = String::from_str("SET");
                line.append(" ");
                line.append(key.as_str());
                line.append(" ");
                line.append(value.as_str());
                line.append(" ");
                line.append(checksum.as_str());
                proof {
                    let t1 = "SET"@ + " "@;
                    let t2 = t1 + key@;
                    let t3 = t2 + " "@;
                    let t4 = t3 + value@;
                    let t5 = t4 + " "@;
                    lemma_utf8_concat("SET"@, " "@);
                    lemma_utf8_concat(t1, key@);
                    lemma_utf8_concat(t2, " "@);
                    lemma_utf8_concat(t3, value@);
                    lemma_utf8_concat(t4, " "@);
                    lemma_utf8_concat(t5, checksum@);
                }
                line
            },
            LogEntry::Del { key, checksum } => {
                let mut line = String::from_str("DEL");
                line.append(" ");
                line.append(key.as_str());
                line.append(" ");
                line.append(checksum.as_str());
                proof {
                    let t1 = "DEL"@ + " "@;
                    let t2 = t1 + key@;
                    let t3 = t2 + " "@;
                    lemma_utf8_concat("DEL"@, " "@);
                    lemma_utf8_concat(t1, key@);
                    lemma_utf8_concat(t2, " "@);
                    lemma_utf8_concat(t3, checksum@);
                }
                line
            },
        }
    }

    /// Writes the record as a line for the log file: its text, then a line feed.
    pub fn to_line(&self) -> (line: String)
        ensures
            encode_utf8(line@) == self@.encoded() + seq![0x0au8],
    {
        let mut line = self.encode();
        let ghost text = line@;
        line.append("\n");
        proof {
            reveal_strlit("\n");
            is_ascii_chars_encode_utf8("\n"@);
            assert(encode_utf8("\n"@) =~= seq![0x0au8]);
            lemma_utf8_concat(text, "\n"@);
        }
        line
    }

    /// Reads a record from a line of text, without a line terminator.
    ///
    /// The line is cut at every space. The first field is the tag and the second
    /// the key; a `SET` then has a value and a checksum, a `DEL` a checksum. Fields
    /// after those are ignored. The record is accepted only if its checksum is the
    /// digest of its other fields.
    pub fn try_from(value: &str) -> (result: Result<LogEntry, LogEntryCreationError>)
        ensures
            match result {
                Ok(entry) => decoded(encode_utf8(value@)) == Ok::<Record, LogEntryCreationError>(
                    entry@,
                ),
                Err(error) => decoded(encode_utf8(value@)) == Err::<Record, LogEntryCreationError>(
                    error,
                ),
            },
    {
        let fields = split_fields(value, SEPARATOR);
        if fields.len() < 2 {
            return Err(LogEntryCreationError::InvalidEntryFormat);
        }
        let discriminant = fields[0];
        let key = fields[1];
        proof {
            let split = split_on(encode_utf8(value@), SEPARATOR);
            assert(split[0] == encode_utf8(discriminant@));
            assert(split[1] == encode_utf8(key@));
            encode_utf8_decode_utf8(key@);
            if split[0] == set_tag() {
                lemma_utf8_injective(discriminant@, "SET"@);
            }
            if split[0] == del_tag() {
                lemma_utf8_injective(discriminant@, "DEL"@);
            }
        }
        if str_eq(discriminant, "SET") {
            if fields.len() < 4 {
                return Err(LogEntryCreationError::InvalidEntryFormat);
            }
            let value_field = fields[2];
            let received = fields[3];
            proof {
                let split = split_on(encode_utf8(value@), SEPARATOR);
                assert(split[2] == encode_utf8(value_field@));
                assert(split[3] == encode_utf8(received@));
                encode_utf8_decode_utf8(value_field@);
                encode_utf8_decode_utf8(received@);
            }
            let expected = checksum_of("SET", key, value_field);
            proof {
                if encode_utf8(received@) == encode_utf8(expected@) {
                    lemma_utf8_injective(received@, expected@);
                }
            }
            if !str_eq(received, expected.as_str()) {
                return Err(LogEntryCreationError::IncorrectChecksum);
            }
            Ok(
                LogEntry::Put {
                    key: key.to_owned(),
                    value: value_field.to_owned(),
                    checksum: received.to_owned(),
                },
            )
        } else if str_eq(discriminant, "DEL") {
            if fields.len() < 3 {
                return Err(LogEntryCreationError::InvalidEntryFormat);
            }
            let received = fields[2];
            proof {
                let split = split_on(encode_utf8(value@), SEPARATOR);
                assert(split[2] == encode_utf8(received@));
                encode_utf8_decode_utf8(received@);
                reveal_strlit("");
                assert(""@ =~= Seq::<char>::empty());
                lemma_tags();
            }
            let expected = checksum_of("DEL", key, "");
            proof {
                if encode_utf8(received@) == encode_utf8(expected@) {
                    lemma_utf8_injective(received@, expected@);
                }
            }
            if !str_eq(received, expected.as_str()) {
                return Err(LogEntryCreationError::IncorrectChecksum);
            }
            Ok(LogEntry::Del { key: key.to_owned(), checksum: received.to_owned() })
        } else {
            Err(LogEntryCreationError::InvalidDiscriminant)
        }
    }

    /// The key that the record is about.
    pub fn key(&self) -> (key: &str)
        ensures
            key@ == self@.key(),
    {
        match self {
            LogEntry::Put { key, .. } => key.as_str(),
            LogEntry::Del { key, .. } => key.as_str(),
        }
    }
}

} // verus!
