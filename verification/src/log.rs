//! The append-only log: an ordered sequence of records, read by last writer wins.
//!
//! The store holds the records in memory. The backing file is the caller's: each
//! record has a line to append to it, and the content of the file is replayed
//! into a store when it is opened again.

use crate::digest::sha1_digest;
use crate::record::{
    decoded, del_tag, lemma_checksum_mutation_detected, lemma_decode_encode, lemma_tags, set_tag,
    LogEntry, LogEntryCreationError, Record, SEPARATOR,
};
use crate::text::{
    lemma_concat_lacks, lemma_hex_chars_plain, lemma_split_concat, lemma_split_first,
    lemma_split_first_piece, lemma_split_nonempty, lemma_split_whole, pieces_bytes, split_fields,
    split_on, str_eq,
};
use vstd::prelude::*;
use vstd::string::*;
use vstd::utf8::*;

verus! {

/// The byte that ends each line of the log file: a line feed.
pub const LINE_FEED: u8 = 0x0a;

/// The value that a sequence of records gives a key: that of the latest record
/// about the key if it is a `SET`, none if it is a `DEL` or there is no record
/// about the key.
pub open spec fn lookup(records: Seq<Record>, key: Seq<char>) -> Option<Seq<char>>
    decreases records.len(),
{
    if records.len() == 0 {
        None
    } else if records.last().key() == key {
        match records.last() {
            Record::Put { value, .. } => Some(value),
            Record::Del { .. } => None,
        }
    } else {
        lookup(records.drop_last(), key)
    }
}

/// The lines of a file's content: the pieces between line feeds, without the
/// empty piece after a final line feed.
pub open spec fn content_lines(content: Seq<u8>) -> Seq<Seq<u8>> {
    let pieces = split_on(content, LINE_FEED);
    if pieces.last().len() == 0 {
        pieces.drop_last()
    } else {
        pieces
    }
}

/// The records that a sequence of lines spells, in order, or the error of the
/// first line that spells none.
pub open spec fn replayed(lines: Seq<Seq<u8>>) -> Result<Seq<Record>, LogEntryCreationError>
    decreases lines.len(),
{
    if lines.len() == 0 {
        Ok(Seq::<Record>::empty())
    } else {
        match replayed(lines.drop_last()) {
            Err(error) => Err(error),
            Ok(records) => match decoded(lines.last()) {
                Err(error) => Err(error),
                Ok(record) => Ok(records.push(record)),
            },
        }
    }
}

/// An append-only log of records for one backing file.
pub struct AppendOnlyLogDB {
    path: String,
    entries: Vec<LogEntry>,
}

impl View for AppendOnlyLogDB {
    type V = Seq<Record>;

    /// The records of the log, oldest first.
    closed spec fn view(&self) -> Seq<Record> {
        self.entries@.map_values(|entry: LogEntry| entry@)
    }
}

impl AppendOnlyLogDB {
    /// The path of the backing file.
    pub closed spec fn spec_path(&self) -> Seq<char> {
        self.path@
    }

    /// An empty log for the file at `path`.
    pub fn new(path: &str) -> (db: AppendOnlyLogDB)
        ensures
            db@ == Seq::<Record>::empty(),
            db.spec_path() == path@,
    {
        let db = AppendOnlyLogDB { path: path.to_owned(), entries: Vec::new() };
        assert(db@ =~= Seq::<Record>::empty());
        db
    }

    /// The log that the content of the file at `path` spells: every line is read
    /// as a record, in order, and the first line that is no record fails the
    /// whole with its error.
    pub fn from_path(path: &str, content: &str) -> (result: Result<
        AppendOnlyLogDB,
        LogEntryCreationError,
    >)
        ensures
            match result {
                Ok(db) => replayed(content_lines(encode_utf8(content@))) == Ok::<
                    Seq<Record>,
                    LogEntryCreationError,
                >(db@) && db.spec_path() == path@,
                Err(error) => replayed(content_lines(encode_utf8(content@))) == Err::<
                    Seq<Record>,
                    LogEntryCreationError,
                >(error),
            },
    {
        let pieces = split_fields(content, LINE_FEED);
        proof {
            lemma_split_nonempty(encode_utf8(content@), LINE_FEED);
        }
        let count = if pieces[pieces.len() - 1].as_bytes().len() == 0 {
            pieces.len() - 1
        } else {
            pieces.len()
        };
        let ghost lines = content_lines(encode_utf8(content@));
        let mut entries: Vec<LogEntry> = Vec::new();
        let mut i: usize = 0;
        proof {
            let split = split_on(encode_utf8(content@), LINE_FEED);
            assert(split == pieces_bytes(pieces@));
            assert(split.last() == encode_utf8(pieces@[pieces@.len() - 1]@));
            assert forall|j: int| 0 <= j < count implies lines[j] == encode_utf8(
                #[trigger] pieces@[j]@,
            ) by {
                assert(split[j] == encode_utf8(pieces@[j]@));
            }
        }
        assert(lines.subrange(0, 0) =~= Seq::<Seq<u8>>::empty());
        assert(entries@.map_values(|entry: LogEntry| entry@) =~= Seq::<Record>::empty());
        while i < count
            invariant
                i <= count,
                lines == content_lines(encode_utf8(content@)),
                count == lines.len(),
                count <= pieces@.len(),
                forall|j: int| 0 <= j < count ==> lines[j] == encode_utf8(#[trigger] pieces@[j]@),
                replayed(lines.subrange(0, i as int)) == Ok::<Seq<Record>, LogEntryCreationError>(
                    entries@.map_values(|entry: LogEntry| entry@),
                ),
            decreases count - i,
        {
            let ghost before = entries@.map_values(|entry: LogEntry| entry@);
            proof {
                assert(lines.subrange(0, i + 1).drop_last() =~= lines.subrange(0, i as int));
                assert(lines.subrange(0, i + 1).last() == lines[i as int]);
                assert(lines[i as int] == encode_utf8(pieces@[i as int]@));
            }
            match LogEntry::try_from(pieces[i]) {
                Err(error) => {
                    proof {
                        lemma_replay_fails(lines, i as int);
                    }
                    return Err(error);
                },
                Ok(entry) => {
                    entries.push(entry);
                    assert(entries@.map_values(|entry: LogEntry| entry@) =~= before.push(entry@));
                },
            }
            i += 1;
        }
        assert(lines.subrange(0, i as int) =~= lines);
        Ok(AppendOnlyLogDB { path: path.to_owned(), entries })
    }

    /// The path of the backing file.
    pub fn path(&self) -> (path: &str)
        ensures
            path@ == self.spec_path(),
    {
        self.path.as_str()
    }

    /// The number of records in the log.
    pub fn len(&self) -> (len: usize)
        ensures
            len == self@.len(),
    {
        self.entries.len()
    }

    /// Appends a record to the log.
    pub fn append(&mut self, entry: LogEntry)
        ensures
            final(self)@ == old(self)@.push(entry@),
            final(self).spec_path() == old(self).spec_path(),
    {
        self.entries.push(entry);
        assert(self@ =~= old(self)@.push(entry@));
    }

    /// Sets `key` to `value`: appends the record that says so, and returns its
    /// line for the backing file.
    pub fn set(&mut self, key: &str, value: &str) -> (line: String)
        ensures
            final(self)@ == old(self)@.push(Record::new_set(key@, value@)),
            final(self).spec_path() == old(self).spec_path(),
            encode_utf8(line@) == Record::new_set(key@, value@).encoded() + seq![
                LINE_FEED,
            ],
    {
        let entry = LogEntry::create_set(key, value);
        let line = entry.to_line();
        self.append(entry);
        line
    }

    /// Deletes `key`: appends the record that says so, and returns its line for
    /// the backing file. The key is absent afterwards, whatever stood before.
    pub fn delete(&mut self, key: &str) -> (line: String)
        ensures
            final(self)@ == old(self)@.push(Record::new_delete(key@)),
            final(self).spec_path() == old(self).spec_path(),
            encode_utf8(line@) == Record::new_delete(key@).encoded() + seq![LINE_FEED],
    {
        let entry = LogEntry::create_delete(key);
        let line = entry.to_line();
        self.append(entry);
        line
    }

    /// The value of `key`, by last writer wins.
    pub fn get(&self, key: &str) -> (value: Option<&str>)
        ensures
            match value {
                Some(text) => lookup(self@, key@) == Some(text@),
                None => lookup(self@, key@) is None,
            },
    {
        let mut i: usize = self.entries.len();
        assert(self@.subrange(0, i as int) =~= self@);
        while i > 0
            invariant
                i <= self.entries@.len(),
                self@.len() == self.entries@.len(),
                lookup(self@, key@) == lookup(self@.subrange(0, i as int), key@),
            decreases i,
        {
            let entry = &self.entries[i - 1];
            proof {
                assert(self@.subrange(0, i as int).last() == entry@);
                assert(self@.subrange(0, i as int).drop_last() =~= self@.subrange(0, i - 1));
            }
            match entry {
                LogEntry::Put { key: entry_key, value, .. } => {
                    if str_eq(entry_key.as_str(), key) {
                        return Some(value.as_str());
                    }
                },
                LogEntry::Del { key: entry_key, .. } => {
                    if str_eq(entry_key.as_str(), key) {
                        return None;
                    }
                },
            }
            i -= 1;
        }
        None
    }
}

/// Whether the log file can carry the record: neither its key nor its value
/// holds a space or a line feed.
pub open spec fn storable(record: Record) -> bool {
    &&& record.representable()
    &&& match record {
        Record::Put { key, value, .. } => !encode_utf8(key).contains(LINE_FEED) && !encode_utf8(
            value,
        ).contains(LINE_FEED),
        Record::Del { key, .. } => !encode_utf8(key).contains(LINE_FEED),
    }
}

/// The content of a log file to which the lines of the records were appended,
/// one after the other.
pub open spec fn file_content(records: Seq<Record>) -> Seq<u8>
    decreases records.len(),
{
    if records.len() == 0 {
        Seq::<u8>::empty()
    } else {
        file_content(records.drop_last()) + (records.last().encoded() + seq![LINE_FEED])
    }
}

/// The lines of the records, in order.
pub open spec fn record_lines(records: Seq<Record>) -> Seq<Seq<u8>> {
    records.map_values(|record: Record| record.encoded())
}

/// With the latest record a `SET` of the key, the key has that record's value,
/// and every other key what it had before.
pub proof fn lemma_lookup_after_set(
    records: Seq<Record>,
    key: Seq<char>,
    value: Seq<char>,
    other: Seq<char>,
)
    ensures
        lookup(records.push(Record::new_set(key, value)), key) == Some(value),
        other != key ==> lookup(records.push(Record::new_set(key, value)), other) == lookup(
            records,
            other,
        ),
{
    assert(records.push(Record::new_set(key, value)).drop_last() =~= records);
}

/// With the latest record a `DEL` of the key, the key is absent, whatever stood
/// before, and every other key has what it had before.
pub proof fn lemma_lookup_after_delete(records: Seq<Record>, key: Seq<char>, other: Seq<char>)
    ensures
        lookup(records.push(Record::new_delete(key)), key) is None,
        other != key ==> lookup(records.push(Record::new_delete(key)), other) == lookup(
            records,
            other,
        ),
{
    assert(records.push(Record::new_delete(key)).drop_last() =~= records);
}

/// A key that no record is about has no value.
pub proof fn lemma_lookup_unmentioned(records: Seq<Record>, key: Seq<char>)
    requires
        forall|i: int| 0 <= i < records.len() ==> (#[trigger] records[i]).key() != key,
    ensures
        lookup(records, key) is None,
    decreases records.len(),
{
    if records.len() > 0 {
        lemma_lookup_unmentioned(records.drop_last(), key);
    }
}

/// The line of a record that the file can carry holds no line feed.
proof fn lemma_line_lacks_line_feed(record: Record)
    requires
        record.intact(),
        storable(record),
    ensures
        !record.line_prefix().contains(LINE_FEED),
        !record.encoded().contains(LINE_FEED),
{
    lemma_tags();
    let sep = seq![SEPARATOR];
    assert(!sep.contains(LINE_FEED));
    assert(!set_tag().contains(LINE_FEED));
    assert(!del_tag().contains(LINE_FEED));
    match record {
        Record::Put { key, value, checksum } => {
            let k = encode_utf8(key);
            let v = encode_utf8(value);
            lemma_hex_chars_plain(sha1_digest(set_tag() + k + v));
            lemma_concat_lacks(set_tag(), sep, LINE_FEED);
            lemma_concat_lacks(set_tag() + sep, k, LINE_FEED);
            lemma_concat_lacks(set_tag() + sep + k, sep, LINE_FEED);
            lemma_concat_lacks(set_tag() + sep + k + sep, v, LINE_FEED);
            lemma_concat_lacks(set_tag() + sep + k + sep + v, sep, LINE_FEED);
            lemma_concat_lacks(record.line_prefix(), encode_utf8(checksum), LINE_FEED);
        },
        Record::Del { key, checksum } => {
            let k = encode_utf8(key);
            lemma_hex_chars_plain(sha1_digest(del_tag() + k + Seq::<u8>::empty()));
            lemma_concat_lacks(del_tag(), sep, LINE_FEED);
            lemma_concat_lacks(del_tag() + sep, k, LINE_FEED);
            lemma_concat_lacks(del_tag() + sep + k, sep, LINE_FEED);
            lemma_concat_lacks(record.line_prefix(), encode_utf8(checksum), LINE_FEED);
        },
    }
}

/// The content of a file of records splits at its line feeds into the lines of
/// the records and an empty piece after the last line feed.
proof fn lemma_file_content_split(records: Seq<Record>)
    requires
        forall|i: int| 0 <= i < records.len() ==> (#[trigger] records[i]).intact() && storable(records[i]),
    ensures
        split_on(file_content(records), LINE_FEED) == record_lines(records).push(Seq::<u8>::empty()),
    decreases records.len(),
{
    if records.len() == 0 {
        assert(split_on(file_content(records), LINE_FEED) =~= record_lines(records).push(
            Seq::<u8>::empty(),
        ));
    } else {
        let before = records.drop_last();
        let line = records.last().encoded();
        let written = line + seq![LINE_FEED];
        lemma_file_content_split(before);
        lemma_line_lacks_line_feed(records.last());
        assert(written =~= line + seq![LINE_FEED] + Seq::<u8>::empty());
        lemma_split_first(line, Seq::<u8>::empty(), LINE_FEED);
        lemma_split_concat(file_content(before), written, LINE_FEED);
        let sa = split_on(file_content(before), LINE_FEED);
        let sb = split_on(written, LINE_FEED);
        assert(sb =~= seq![line, Seq::<u8>::empty()]);
        assert(sa.last() + sb[0] =~= line);
        assert(sa.drop_last() =~= record_lines(before));
        assert(split_on(file_content(records), LINE_FEED) =~= record_lines(records).push(
            Seq::<u8>::empty(),
        ));
    }
}

/// Replaying the lines of records gives the records back.
proof fn lemma_replay_lines(records: Seq<Record>)
    requires
        forall|i: int| 0 <= i < records.len() ==> (#[trigger] records[i]).intact() && storable(records[i]),
    ensures
        replayed(record_lines(records)) == Ok::<Seq<Record>, LogEntryCreationError>(records),
    decreases records.len(),
{
    if records.len() == 0 {
        assert(records =~= Seq::<Record>::empty());
    } else {
        lemma_replay_lines(records.drop_last());
        lemma_decode_encode(records.last());
        assert(record_lines(records).drop_last() =~= record_lines(records.drop_last()));
        assert(records.drop_last().push(records.last()) =~= records);
    }
}

/// What was written is read back: the content of a file to which the lines of
/// records were appended replays to exactly those records, in order, where each
/// record has its right checksum and neither a space nor a line feed in its key
/// or value.
pub proof fn lemma_replay_recovers(records: Seq<Record>)
    requires
        forall|i: int| 0 <= i < records.len() ==> (#[trigger] records[i]).intact() && storable(records[i]),
    ensures
        replayed(content_lines(file_content(records))) == Ok::<Seq<Record>, LogEntryCreationError>(
            records,
        ),
{
    lemma_file_content_split(records);
    lemma_replay_lines(records);
    let pieces = split_on(file_content(records), LINE_FEED);
    assert(pieces.drop_last() =~= record_lines(records));
}

/// Corruption is detected: a file in which the checksum of one record was
/// overwritten, by any other bytes of the same length, fails to replay with
/// `IncorrectChecksum`, whatever follows that record, where the records before it
/// are sound.
pub proof fn lemma_corrupted_file_refused(
    before: Seq<Record>,
    record: Record,
    field: Seq<u8>,
    rest: Seq<u8>,
)
    requires
        forall|i: int| 0 <= i < before.len() ==> (#[trigger] before[i]).intact() && storable(before[i]),
        record.intact(),
        storable(record),
        field.len() == encode_utf8(record.checksum()).len(),
        field != encode_utf8(record.checksum()),
    ensures
        replayed(
            content_lines(
                file_content(before) + (record.line_prefix() + field + seq![LINE_FEED]) + rest,
            ),
        ) == Err::<Seq<Record>, LogEntryCreationError>(LogEntryCreationError::IncorrectChecksum),
{
    let head = file_content(before);
    let prefix = record.line_prefix();
    let line = prefix + field;
    let tail = seq![LINE_FEED] + rest;
    let content = head + (line + seq![LINE_FEED]) + rest;
    let kept = split_on(field, LINE_FEED)[0];
    let at = before.len() as int;

    // The line of the record, up to the first line feed that the field may hold.
    lemma_line_lacks_line_feed(record);
    lemma_split_whole(prefix, LINE_FEED);
    lemma_split_concat(prefix, field, LINE_FEED);
    lemma_split_nonempty(field, LINE_FEED);
    let line_pieces = split_on(line, LINE_FEED);
    assert(line_pieces[0] == prefix + kept);

    // What follows the line starts with a line feed.
    assert(tail.drop_first() =~= rest);
    lemma_split_nonempty(rest, LINE_FEED);
    let tail_pieces = split_on(tail, LINE_FEED);
    assert(tail_pieces[0] =~= Seq::<u8>::empty());
    lemma_split_concat(line, tail, LINE_FEED);
    let after = split_on(line + tail, LINE_FEED);
    assert(line_pieces.last() + tail_pieces[0] =~= line_pieces.last());
    assert(after[0] == prefix + kept);
    assert(after.len() >= 2);

    // The whole content: the lines before, then that line.
    lemma_file_content_split(before);
    lemma_split_concat(head, line + tail, LINE_FEED);
    assert(content =~= head + (line + tail));
    let pieces = split_on(content, LINE_FEED);
    let head_pieces = split_on(head, LINE_FEED);
    assert(head_pieces.drop_last() =~= record_lines(before));
    assert(head_pieces.last() + after[0] =~= prefix + kept);
    assert(pieces.len() >= at + 2);
    assert(pieces[at] == prefix + kept);
    let lines = content_lines(content);
    assert(lines.len() > at);
    assert(lines[at] == prefix + kept);
    assert(lines.subrange(0, at) =~= record_lines(before));

    lemma_replay_lines(before);
    lemma_split_first_piece(field, LINE_FEED);
    lemma_checksum_mutation_detected(record, kept);
    lemma_replay_fails(lines, at);
}

/// Where a line is no record, the replay of any sequence of lines that holds it
/// fails; where the lines before it are records, it fails with that line's error.
proof fn lemma_replay_fails(lines: Seq<Seq<u8>>, at: int)
    requires
        0 <= at < lines.len(),
        replayed(lines.subrange(0, at)) is Ok,
        decoded(lines[at]) is Err,
    ensures
        replayed(lines) == Err::<Seq<Record>, LogEntryCreationError>(decoded(lines[at])->Err_0),
    decreases lines.len(),
{
    if at == lines.len() - 1 {
        assert(lines.drop_last() =~= lines.subrange(0, at));
    } else {
        assert(lines.drop_last().subrange(0, at) =~= lines.subrange(0, at));
        lemma_replay_fails(lines.drop_last(), at);
    }
}

} // verus!
