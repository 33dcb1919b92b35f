//! The search projection: a byte image of committed entries that queries read.

use std::collections::HashMap;

use vstd::bytes::{u32_from_le_bytes, u32_to_le_bytes, u64_from_le_bytes, u64_to_le_bytes};
use vstd::prelude::*;
use vstd::slice::slice_subrange;

use crate::index::{self, CommittedIndex};
use crate::model::{self, Coverage, IndexedEntry, SearchResult, SkippedLocation};
use crate::paths::FilePath;
use crate::query::{
    self, CancellationToken, QueryCandidate, QuerySession, RankedResults, SortOrder,
};
use crate::relevance;
use crate::text::{self, Order};
use crate::unicode::{self, normalize_search_text, utf8_text};

verus! {

/// The version of the layout.
pub const VERSION: u32 = 4;

/// The number of bytes before the first record.
pub const HEADER_LEN: usize = 24;

/// The number of bytes in a record before its texts.
pub const RECORD_LEN: usize = 49;

/// Why an image is refused.
#[derive(Clone, Copy, Debug, PartialEq, Eq, Structural)]
pub enum ProjectionError {
    InvalidHeader,
    UnsupportedVersion,
    StaleGeneration,
    Truncated,
    OffsetsOverflow,
    RecordExceedsFile,
    StringNotUtf8,
    TrailingBytes,
}

impl ProjectionError {
    /// The words for an error.
    pub open spec fn text(self) -> Seq<char> {
        match self {
            ProjectionError::InvalidHeader => "invalid projection header"@,
            ProjectionError::UnsupportedVersion => "unsupported projection version"@,
            ProjectionError::StaleGeneration => "stale projection generation"@,
            ProjectionError::Truncated => "projection is truncated"@,
            ProjectionError::OffsetsOverflow => "projection offsets overflow"@,
            ProjectionError::RecordExceedsFile => "projection record exceeds file"@,
            ProjectionError::StringNotUtf8 => "projection string is not UTF-8"@,
            ProjectionError::TrailingBytes => "projection has trailing bytes"@,
        }
    }

    /// Gives the words for this error.
    pub fn message(&self) -> (text: &'static str)
        ensures
            text@ == self.text(),
    {
        match self {
            ProjectionError::InvalidHeader => "invalid projection header",
            ProjectionError::UnsupportedVersion => "unsupported projection version",
            ProjectionError::StaleGeneration => "stale projection generation",
            ProjectionError::Truncated => "projection is truncated",
            ProjectionError::OffsetsOverflow => "projection offsets overflow",
            ProjectionError::RecordExceedsFile => "projection record exceeds file",
            ProjectionError::StringNotUtf8 => "projection string is not UTF-8",
            ProjectionError::TrailingBytes => "projection has trailing bytes",
        }
    }
}

/// The bytes that every image starts with.
pub open spec fn magic() -> Seq<u8> {
    seq![0x45u8, 0x56, 0x46, 0x4C, 0x49, 0x44, 0x58, 0]
}

/// What a record holds.
pub struct Record {
    pub entry_id: u64,
    pub size: u64,
    pub created_ns: Option<i64>,
    pub modified_ns: Option<i64>,
    pub hidden: bool,
    pub name: Seq<char>,
    pub path: Seq<char>,
    pub normalized_name: Seq<char>,
    pub normalized_path: Seq<char>,
}

/// A time as a record can hold it: the smallest number stands for a missing time.
pub open spec fn recordable(time: Option<i64>) -> Option<i64> {
    if time == Some(i64::MIN) {
        None
    } else {
        time
    }
}

/// The record of an entry.
pub open spec fn record_of(entry: IndexedEntry) -> Record {
    Record {
        entry_id: entry.entry_id,
        size: entry.size,
        created_ns: recordable(entry.created_ns),
        modified_ns: recordable(entry.modified_ns),
        hidden: entry.hidden,
        name: entry.name@,
        path: entry.path@,
        normalized_name: unicode::normalized(entry.name@),
        normalized_path: unicode::normalized(entry.path@),
    }
}

/// The records of some entries.
pub open spec fn records_of(entries: Seq<IndexedEntry>) -> Seq<Record> {
    entries.map_values(|entry: IndexedEntry| record_of(entry))
}

/// The number that stands for a time in a record.
pub open spec fn time_number(time: Option<i64>) -> u64 {
    match time {
        Some(value) => value as u64,
        None => i64::MIN as u64,
    }
}

/// The time that a number in a record stands for.
pub open spec fn time_of(number: u64) -> Option<i64> {
    recordable(Some(number as i64))
}

/// The numbers at the start of a record.
pub open spec fn number_bytes(record: Record) -> Seq<u8> {
    vstd::bytes::spec_u64_to_le_bytes(record.entry_id) + vstd::bytes::spec_u64_to_le_bytes(
        record.size,
    ) + vstd::bytes::spec_u64_to_le_bytes(time_number(record.created_ns))
        + vstd::bytes::spec_u64_to_le_bytes(time_number(record.modified_ns))
}

/// The length of a text in bytes, as a record holds it.
pub open spec fn length_bytes(text: Seq<char>) -> Seq<u8> {
    vstd::bytes::spec_u32_to_le_bytes(vstd::utf8::encode_utf8(text).len() as u32)
}

/// The lengths of the texts of a record.
pub open spec fn lengths_bytes(record: Record) -> Seq<u8> {
    length_bytes(record.name) + length_bytes(record.path) + length_bytes(record.normalized_name)
        + length_bytes(record.normalized_path)
}

/// The byte that tells whether an entry is hidden.
pub open spec fn hidden_byte(hidden: bool) -> u8 {
    if hidden {
        1
    } else {
        0
    }
}

/// The texts of a record.
pub open spec fn text_bytes(record: Record) -> Seq<u8> {
    vstd::utf8::encode_utf8(record.name) + vstd::utf8::encode_utf8(record.path)
        + vstd::utf8::encode_utf8(record.normalized_name) + vstd::utf8::encode_utf8(
        record.normalized_path,
    )
}

/// The bytes of a record.
pub open spec fn record_bytes(record: Record) -> Seq<u8> {
    number_bytes(record) + lengths_bytes(record) + seq![hidden_byte(record.hidden)] + text_bytes(
        record,
    )
}

/// The bytes of some records.
pub open spec fn records_bytes(records: Seq<Record>) -> Seq<u8>
    decreases records.len(),
{
    if records.len() == 0 {
        Seq::empty()
    } else {
        record_bytes(records[0]) + records_bytes(records.drop_first())
    }
}

/// The bytes before the first record.
pub open spec fn header_bytes(generation: u64, count: u32) -> Seq<u8> {
    magic() + vstd::bytes::spec_u32_to_le_bytes(VERSION) + vstd::bytes::spec_u64_to_le_bytes(
        generation,
    ) + vstd::bytes::spec_u32_to_le_bytes(count)
}

/// The image of some entries.
pub open spec fn image(generation: u64, entries: Seq<IndexedEntry>) -> Seq<u8> {
    header_bytes(generation, entries.len() as u32) + records_bytes(records_of(entries))
}

/// The four-byte number at an offset.
pub open spec fn u32_at(bytes: Seq<u8>, offset: int) -> u32 {
    vstd::bytes::spec_u32_from_le_bytes(bytes.subrange(offset, offset + 4))
}

/// The eight-byte number at an offset.
pub open spec fn u64_at(bytes: Seq<u8>, offset: int) -> u64 {
    vstd::bytes::spec_u64_from_le_bytes(bytes.subrange(offset, offset + 8))
}

/// Where the name of the record at an offset starts.
pub open spec fn name_start(offset: int) -> int {
    offset + RECORD_LEN
}

/// Where the path of the record at an offset starts.
pub open spec fn path_start(bytes: Seq<u8>, offset: int) -> int {
    name_start(offset) + u32_at(bytes, offset + 32)
}

/// Where the normalized name of the record at an offset starts.
pub open spec fn normalized_name_start(bytes: Seq<u8>, offset: int) -> int {
    path_start(bytes, offset) + u32_at(bytes, offset + 36)
}

/// Where the normalized path of the record at an offset starts.
pub open spec fn normalized_path_start(bytes: Seq<u8>, offset: int) -> int {
    normalized_name_start(bytes, offset) + u32_at(bytes, offset + 40)
}

/// Where the record at an offset ends.
pub open spec fn record_end(bytes: Seq<u8>, offset: int) -> int {
    normalized_path_start(bytes, offset) + u32_at(bytes, offset + 44)
}

/// The four texts of the record at an offset are UTF-8.
pub open spec fn texts_are_valid(bytes: Seq<u8>, offset: int) -> bool {
    &&& vstd::utf8::valid_utf8(bytes.subrange(name_start(offset), path_start(bytes, offset)))
    &&& vstd::utf8::valid_utf8(
        bytes.subrange(path_start(bytes, offset), normalized_name_start(bytes, offset)),
    )
    &&& vstd::utf8::valid_utf8(
        bytes.subrange(
            normalized_name_start(bytes, offset),
            normalized_path_start(bytes, offset),
        ),
    )
    &&& vstd::utf8::valid_utf8(
        bytes.subrange(normalized_path_start(bytes, offset), record_end(bytes, offset)),
    )
}

/// The record at an offset.
pub open spec fn record_at(bytes: Seq<u8>, offset: int) -> Record {
    Record {
        entry_id: u64_at(bytes, offset),
        size: u64_at(bytes, offset + 8),
        created_ns: time_of(u64_at(bytes, offset + 16)),
        modified_ns: time_of(u64_at(bytes, offset + 24)),
        hidden: bytes[offset + 48] != 0,
        name: vstd::utf8::decode_utf8(
            bytes.subrange(name_start(offset), path_start(bytes, offset)),
        ),
        path: vstd::utf8::decode_utf8(
            bytes.subrange(path_start(bytes, offset), normalized_name_start(bytes, offset)),
        ),
        normalized_name: vstd::utf8::decode_utf8(
            bytes.subrange(
                normalized_name_start(bytes, offset),
                normalized_path_start(bytes, offset),
            ),
        ),
        normalized_path: vstd::utf8::decode_utf8(
            bytes.subrange(normalized_path_start(bytes, offset), record_end(bytes, offset)),
        ),
    }
}

/// What is wrong with the `count` records from an offset on, which end the image.
pub open spec fn records_error(bytes: Seq<u8>, offset: int, count: nat) -> Option<
    ProjectionError,
>
    decreases count,
{
    if count == 0 {
        if offset == bytes.len() {
            None
        } else {
            Some(ProjectionError::TrailingBytes)
        }
    } else if offset + 48 > bytes.len() {
        Some(ProjectionError::Truncated)
    } else if record_end(bytes, offset) > usize::MAX {
        Some(ProjectionError::OffsetsOverflow)
    } else if record_end(bytes, offset) > bytes.len() {
        Some(ProjectionError::RecordExceedsFile)
    } else if !texts_are_valid(bytes, offset) {
        Some(ProjectionError::StringNotUtf8)
    } else {
        records_error(bytes, record_end(bytes, offset), (count - 1) as nat)
    }
}

/// The `count` records from an offset on.
pub open spec fn records_at(bytes: Seq<u8>, offset: int, count: nat) -> Seq<Record>
    decreases count,
{
    if count == 0 {
        Seq::empty()
    } else {
        seq![record_at(bytes, offset)] + records_at(
            bytes,
            record_end(bytes, offset),
            (count - 1) as nat,
        )
    }
}

/// The generation in the header of an image.
pub open spec fn image_generation(bytes: Seq<u8>) -> u64 {
    u64_at(bytes, 12)
}

/// The number of records in the header of an image.
pub open spec fn image_count(bytes: Seq<u8>) -> u32 {
    u32_at(bytes, 20)
}

/// What is wrong with an image.
pub open spec fn image_error(bytes: Seq<u8>, expected_generation: Option<u64>) -> Option<
    ProjectionError,
> {
    if bytes.len() < HEADER_LEN || bytes.take(8) != magic() {
        Some(ProjectionError::InvalidHeader)
    } else if u32_at(bytes, 8) != VERSION {
        Some(ProjectionError::UnsupportedVersion)
    } else if expected_generation is Some && expected_generation != Some(image_generation(bytes)) {
        Some(ProjectionError::StaleGeneration)
    } else {
        records_error(bytes, HEADER_LEN as int, image_count(bytes) as nat)
    }
}

/// The records of an image.
pub open spec fn image_records(bytes: Seq<u8>) -> Seq<Record> {
    records_at(bytes, HEADER_LEN as int, image_count(bytes) as nat)
}

fn read_u32(bytes: &[u8], offset: usize) -> (value: u32)
    requires
        offset + 4 <= bytes.len(),
    ensures
        value == u32_at(bytes@, offset as int),
{
    u32_from_le_bytes(slice_subrange(bytes, offset, offset + 4))
}

fn read_u64(bytes: &[u8], offset: usize) -> (value: u64)
    requires
        offset + 8 <= bytes.len(),
    ensures
        value == u64_at(bytes@, offset as int),
{
    u64_from_le_bytes(slice_subrange(bytes, offset, offset + 8))
}

fn read_time(bytes: &[u8], offset: usize) -> (time: Option<i64>)
    requires
        offset + 8 <= bytes.len(),
    ensures
        time == time_of(u64_at(bytes@, offset as int)),
{
    let value: i64 = read_u64(bytes, offset) as i64;
    if value == i64::MIN {
        None
    } else {
        Some(value)
    }
}

/// Reads the text between two offsets.
fn read_text(bytes: &[u8], from: usize, to: usize) -> (text: Option<String>)
    requires
        from <= to <= bytes@.len(),
    ensures
        text is Some <==> vstd::utf8::valid_utf8(bytes@.subrange(from as int, to as int)),
        text matches Some(value) ==> value@ == vstd::utf8::decode_utf8(
            bytes@.subrange(from as int, to as int),
        ),
{
    match utf8_text(slice_subrange(bytes, from, to)) {
        Some(value) => Some(value.to_owned()),
        None => None,
    }
}

/// Whether the bytes between two offsets are UTF-8.
fn is_text(bytes: &[u8], from: usize, to: usize) -> (valid: bool)
    requires
        from <= to <= bytes@.len(),
    ensures
        valid == vstd::utf8::valid_utf8(bytes@.subrange(from as int, to as int)),
{
    utf8_text(slice_subrange(bytes, from, to)).is_some()
}

/// Checks that the rest of an image from the first record on holds exactly `count` records.
fn validate_records(bytes: &[u8], count: u32) -> (result: Result<(), ProjectionError>)
    requires
        bytes@.len() >= HEADER_LEN,
    ensures
        match result {
            Ok(_) => records_error(bytes@, HEADER_LEN as int, count as nat) is None,
            Err(error) => records_error(bytes@, HEADER_LEN as int, count as nat) == Some(error),
        },
{
    let mut offset: usize = HEADER_LEN;
    let mut remaining: u32 = count;
    while remaining > 0
        invariant
            offset <= bytes@.len(),
            records_error(bytes@, HEADER_LEN as int, count as nat) == records_error(
                bytes@,
                offset as int,
                remaining as nat,
            ),
        decreases remaining,
    {
        if bytes.len() - offset < 48 {
            return Err(ProjectionError::Truncated);
        }
        let name_len: usize = read_u32(bytes, offset + 32) as usize;
        let path_len: usize = read_u32(bytes, offset + 36) as usize;
        let normalized_name_len: usize = read_u32(bytes, offset + 40) as usize;
        let normalized_path_len: usize = read_u32(bytes, offset + 44) as usize;
        let name: usize = match offset.checked_add(RECORD_LEN) {
            Some(value) => value,
            None => return Err(ProjectionError::OffsetsOverflow),
        };
        let path: usize = match name.checked_add(name_len) {
            Some(value) => value,
            None => return Err(ProjectionError::OffsetsOverflow),
        };
        let normalized_name: usize = match path.checked_add(path_len) {
            Some(value) => value,
            None => return Err(ProjectionError::OffsetsOverflow),
        };
        let normalized_path: usize = match normalized_name.checked_add(normalized_name_len) {
            Some(value) => value,
            None => return Err(ProjectionError::OffsetsOverflow),
        };
        let end: usize = match normalized_path.checked_add(normalized_path_len) {
            Some(value) => value,
            None => return Err(ProjectionError::OffsetsOverflow),
        };
        if end > bytes.len() {
            return Err(ProjectionError::RecordExceedsFile);
        }
        if !is_text(bytes, name, path) || !is_text(bytes, path, normalized_name) || !is_text(
            bytes,
            normalized_name,
            normalized_path,
        ) || !is_text(bytes, normalized_path, end) {
            return Err(ProjectionError::StringNotUtf8);
        }
        offset = end;
        remaining -= 1;
    }
    if offset != bytes.len() {
        return Err(ProjectionError::TrailingBytes);
    }
    Ok(())
}

/// The candidate that a record stands for.
pub open spec fn candidate_of(record: Record) -> query::Candidate {
    query::Candidate {
        row: model::Row {
            entry_id: record.entry_id,
            name: record.name,
            path: record.path,
            size: record.size,
            created_ns: record.created_ns,
            modified_ns: record.modified_ns,
        },
        name: record.normalized_name,
        path: record.normalized_path,
    }
}

/// The candidates among some records: all of them, or those that are not hidden.
pub open spec fn visible(records: Seq<Record>, show_hidden: bool) -> Seq<query::Candidate>
    decreases records.len(),
{
    if records.len() == 0 {
        Seq::empty()
    } else {
        let before = visible(records.drop_last(), show_hidden);
        if show_hidden || !records.last().hidden {
            before.push(candidate_of(records.last()))
        } else {
            before
        }
    }
}

/// A record with its place behind it.
struct Decoded {
    candidate: QueryCandidate,
    hidden: bool,
    end: usize,
}

/// Reads a record of a valid image.
fn decode_record(bytes: &[u8], offset: usize) -> (decoded: Option<Decoded>)
    requires
        offset + 48 <= bytes@.len(),
        record_end(bytes@, offset as int) <= bytes.len(),
        texts_are_valid(bytes@, offset as int),
    ensures
        decoded matches Some(found) && {
            &&& found.candidate@ == candidate_of(record_at(bytes@, offset as int))
            &&& found.hidden == record_at(bytes@, offset as int).hidden
            &&& found.end == record_end(bytes@, offset as int)
        },
{
    let name: usize = offset + RECORD_LEN;
    let path: usize = name + read_u32(bytes, offset + 32) as usize;
    let normalized_name: usize = path + read_u32(bytes, offset + 36) as usize;
    let normalized_path: usize = normalized_name + read_u32(bytes, offset + 40) as usize;
    let end: usize = normalized_path + read_u32(bytes, offset + 44) as usize;
    let name_text = read_text(bytes, name, path)?;
    let path_text = read_text(bytes, path, normalized_name)?;
    let normalized_name_text = read_text(bytes, normalized_name, normalized_path)?;
    let normalized_path_text = read_text(bytes, normalized_path, end)?;
    Some(
        Decoded {
            candidate: QueryCandidate {
                result: SearchResult {
                    entry_id: read_u64(bytes, offset),
                    name: name_text,
                    path: FilePath::new(path_text.as_str()),
                    size: read_u64(bytes, offset + 8),
                    created_ns: read_time(bytes, offset + 16),
                    modified_ns: read_time(bytes, offset + 24),
                },
                normalized_name: normalized_name_text,
                normalized_path: normalized_path_text,
            },
            hidden: bytes[offset + 48] != 0,
            end,
        },
    )
}

/// A validated image that queries read.
pub struct SearchProjection<'a> {
    map: &'a [u8],
    generation: u64,
    record_count: u32,
}

impl<'a> SearchProjection<'a> {
    /// The image is valid, and the numbers are those of its header.
    #[verifier::type_invariant]
    pub closed spec fn wf(&self) -> bool {
        &&& image_error(self.map@, None) is None
        &&& self.generation == image_generation(self.map@)
        &&& self.record_count == image_count(self.map@)
    }

    /// The bytes of the image.
    pub closed spec fn bytes(&self) -> Seq<u8> {
        self.map@
    }

    /// The records of the image.
    pub open spec fn records(&self) -> Seq<Record> {
        image_records(self.bytes())
    }

    /// Checks an image and makes it searchable.
    pub fn open(bytes: &'a [u8], expected_generation: Option<u64>) -> (result: Result<
        SearchProjection<'a>,
        ProjectionError,
    >)
        ensures
            match result {
                Ok(projection) => image_error(bytes@, expected_generation) is None
                    && projection.bytes() == bytes@,
                Err(error) => image_error(bytes@, expected_generation) == Some(error),
            },
    {
        if bytes.len() < HEADER_LEN {
            return Err(ProjectionError::InvalidHeader);
        }
        let same = bytes[0] == 0x45 && bytes[1] == 0x56 && bytes[2] == 0x46 && bytes[3] == 0x4C
            && bytes[4] == 0x49 && bytes[5] == 0x44 && bytes[6] == 0x58 && bytes[7] == 0;
        proof {
            if same {
                assert(bytes@.take(8) =~= magic());
            } else {
                assert(magic()[0] == 0x45 && magic()[1] == 0x56 && magic()[2] == 0x46 && magic()[3]
                    == 0x4C && magic()[4] == 0x49 && magic()[5] == 0x44 && magic()[6] == 0x58
                    && magic()[7] == 0);
                assert(bytes@.take(8) != magic()) by {
                    assert(forall|i: int| 0 <= i < 8 ==> bytes@.take(8)[i] == bytes@[i]);
                }
            }
        }
        if !same {
            return Err(ProjectionError::InvalidHeader);
        }
        if read_u32(bytes, 8) != VERSION {
            return Err(ProjectionError::UnsupportedVersion);
        }
        let generation: u64 = read_u64(bytes, 12);
        if let Some(expected) = expected_generation {
            if generation != expected {
                return Err(ProjectionError::StaleGeneration);
            }
        }
        let record_count: u32 = read_u32(bytes, 20);
        match validate_records(bytes, record_count) {
            Ok(_) => Ok(SearchProjection { map: bytes, generation, record_count }),
            Err(error) => Err(error),
        }
    }

    /// The generation that this projection shows.
    pub fn generation(&self) -> (generation: u64)
        ensures
            generation == image_generation(self.bytes()),
    {
        proof {
            use_type_invariant(self);
        }
        self.generation
    }

    /// Finds the most relevant entries.
    pub fn search(&self, query: &str, limit: usize) -> (rows: Vec<SearchResult>)
        ensures
            model::rows_of(rows@) == query::query_rows(
                query@,
                visible(self.records(), true),
                Map::empty(),
                limit as int,
                relevance::default_sort(),
            ),
    {
        broadcast use vstd::std_specs::hash::group_hash_axioms;

        let recent_opens: HashMap<u64, u64> = HashMap::new();
        self.search_with_history(query, &recent_opens, limit)
    }

    /// Finds the most relevant entries, taking recent openings into account.
    pub fn search_with_history(
        &self,
        query: &str,
        recent_opens: &HashMap<u64, u64>,
        limit: usize,
    ) -> (rows: Vec<SearchResult>)
        ensures
            model::rows_of(rows@) == query::query_rows(
                query@,
                visible(self.records(), true),
                recent_opens@,
                limit as int,
                relevance::default_sort(),
            ),
    {
        self.scan(query, recent_opens, limit, SortOrder::default(), None, true).rows
    }

    /// Finds entries in the order that was asked for.
    pub fn search_ranked(
        &self,
        query: &str,
        recent_opens: &HashMap<u64, u64>,
        limit: usize,
        sort: SortOrder,
        cancellation: &CancellationToken,
    ) -> (results: RankedResults)
        ensures
            cancellation.reads(results.cancelled),
            !cancellation.reads(false) ==> results.exact_total == 0 && results.max_retained == 0,
            search_outcome(
                results,
                query@,
                visible(self.records(), true),
                recent_opens@,
                limit as int,
                sort,
            ),
    {
        self.search_ranked_with_visibility(query, recent_opens, limit, sort, cancellation, true)
    }

    /// Finds entries in the order that was asked for, with or without the hidden ones. The token
    /// is looked at before every 256th candidate and at the end.
    pub fn search_ranked_with_visibility(
        &self,
        query: &str,
        recent_opens: &HashMap<u64, u64>,
        limit: usize,
        sort: SortOrder,
        cancellation: &CancellationToken,
        show_hidden: bool,
    ) -> (results: RankedResults)
        ensures
            cancellation.reads(results.cancelled),
            !cancellation.reads(false) ==> results.exact_total == 0 && results.max_retained == 0,
            search_outcome(
                results,
                query@,
                visible(self.records(), show_hidden),
                recent_opens@,
                limit as int,
                sort,
            ),
    {
        self.scan(query, recent_opens, limit, sort, Some(cancellation), show_hidden)
    }

    /// Streams the visible records through a query session.
    fn scan(
        &self,
        query: &str,
        recent_opens: &HashMap<u64, u64>,
        limit: usize,
        sort: SortOrder,
        cancellation: Option<&CancellationToken>,
        show_hidden: bool,
    ) -> (results: RankedResults)
        ensures
            search_outcome(
                results,
                query@,
                visible(self.records(), show_hidden),
                recent_opens@,
                limit as int,
                sort,
            ),
            cancellation is None ==> !results.cancelled,
            cancellation matches Some(token) ==> token.reads(results.cancelled) && (!token.reads(
                false,
            ) ==> results.exact_total == 0 && results.max_retained == 0),
    {
        proof {
            use_type_invariant(self);
        }
        let mut session = QuerySession::new(query, limit, sort);
        let ghost terms = query::terms_of(query@);
        let ghost records = self.records();
        let ghost all = visible(records, show_hidden);
        let count: u32 = self.record_count;
        let mut offset: usize = HEADER_LEN;
        let mut index: usize = 0;
        let mut read: u32 = 0;
        proof {
            assert(records.take(0) =~= Seq::empty());
            assert(all.take(0) =~= Seq::empty());
            assert(records.skip(0) =~= records);
            records_are_counted(self.map@, HEADER_LEN as int, count as nat);
        }
        while read < count
            invariant
                read <= count,
                count <= usize::MAX,
                records == self.records(),
                records.len() == count,
                all == visible(records, show_hidden),
                terms == query::terms_of(query@),
                offset <= self.map@.len(),
                records_error(self.map@, offset as int, (count - read) as nat) is None,
                records.skip(read as int) == records_at(
                    self.map@,
                    offset as int,
                    (count - read) as nat,
                ),
                index == visible(records.take(read as int), show_hidden).len(),
                index <= read,
                index > 0 ==> (cancellation matches Some(token) ==> token.reads(false)),
                session.wf(),
                session.terms() == terms,
                session.order() == sort,
                session.bound() == limit,
                session.found() == query::matches_of(
                    visible(records.take(read as int), show_hidden),
                    terms,
                    recent_opens@,
                ),
                session.found().len() <= read,
            decreases count - read,
        {
            let ghost shown = visible(records.take(read as int), show_hidden);
            proof {
                let rest = records_at(self.map@, offset as int, (count - read) as nat);
                assert(rest[0] == record_at(self.map@, offset as int));
                assert(records[read as int] == rest[0]) by {
                    assert(records.skip(read as int)[0] == records[read as int]);
                }
                assert(records.skip(read + 1) =~= rest.skip(1)) by {
                    assert(records.skip(read + 1) =~= records.skip(read as int).skip(1));
                }
                assert(rest.skip(1) =~= records_at(
                    self.map@,
                    record_end(self.map@, offset as int),
                    (count - read - 1) as nat,
                ));
                assert(records.take(read + 1).drop_last() =~= records.take(read as int));
                assert(records.take(read + 1).last() == records[read as int]);
            }
            if let Some(decoded) = decode_record(self.map, offset) {
                if show_hidden || !decoded.hidden {
                    if index % 256 == 0 {
                        if let Some(token) = cancellation {
                            if token.is_cancelled() {
                                proof {
                                    visible_extends(records, show_hidden, read as int);
                                    assert(all.take(index as int) =~= shown);
                                    query::ranking_is_sorted(sort, session.found());
                                }
                                let results = session.finish(true);
                                assert(query::counts_after(
                                    results,
                                    index as int,
                                    query@,
                                    all,
                                    recent_opens@,
                                    limit as int,
                                ));
                                return results;
                            }
                        }
                    }
                    session.offer(decoded.candidate, recent_opens);
                    index += 1;
                    proof {
                        let candidate = candidate_of(records[read as int]);
                        assert(shown.push(candidate).drop_last() =~= shown);
                    }
                }
                offset = decoded.end;
            }
            read += 1;
        }
        proof {
            assert(records.take(count as int) =~= records);
            assert(all.take(all.len() as int) =~= all);
            query::ranking_is_sorted(sort, session.found());
        }
        let cancelled = match cancellation {
            Some(token) => token.is_cancelled(),
            None => false,
        };
        let results = session.finish(cancelled);
        assert(query::counts_after(
            results,
            all.len() as int,
            query@,
            all,
            recent_opens@,
            limit as int,
        ));
        results
    }
}

/// What a search over some candidates gives: its rows and exact counts, or no rows and the counts
/// at the moment it was stopped.
pub open spec fn search_outcome(
    results: RankedResults,
    query: Seq<char>,
    candidates: Seq<query::Candidate>,
    recent_opens: Map<u64, u64>,
    limit: int,
    sort: SortOrder,
) -> bool {
    &&& !results.cancelled ==> model::rows_of(results.rows@) == query::query_rows(
        query,
        candidates,
        recent_opens,
        limit,
        sort,
    ) && query::counts_after(
        results,
        candidates.len() as int,
        query,
        candidates,
        recent_opens,
        limit,
    )
    &&& results.cancelled ==> results.rows@.len() == 0 && exists|seen: int|
        0 <= seen <= candidates.len() && (seen % 256 == 0 || seen == candidates.len())
            && #[trigger] query::counts_after(
            results,
            seen,
            query,
            candidates,
            recent_opens,
            limit,
        )
}

/// The candidates of the first records are the first candidates.
proof fn visible_extends(records: Seq<Record>, show_hidden: bool, read: int)
    requires
        0 <= read <= records.len(),
    ensures
        visible(records.take(read), show_hidden).len() <= visible(records, show_hidden).len(),
        visible(records, show_hidden).take(visible(records.take(read), show_hidden).len() as int)
            == visible(records.take(read), show_hidden),
    decreases records.len() - read,
{
    let part = visible(records.take(read), show_hidden);
    if read == records.len() {
        assert(records.take(read) =~= records);
        assert(part.take(part.len() as int) =~= part);
    } else {
        visible_extends(records, show_hidden, read + 1);
        assert(records.take(read + 1).drop_last() =~= records.take(read));
        let next = visible(records.take(read + 1), show_hidden);
        assert(next.take(part.len() as int) =~= part);
        assert(visible(records, show_hidden).take(part.len() as int) =~= next.take(
            part.len() as int,
        ));
    }
}

proof fn records_are_counted(bytes: Seq<u8>, offset: int, count: nat)
    ensures
        records_at(bytes, offset, count).len() == count,
    decreases count,
{
    if count > 0 {
        records_are_counted(bytes, record_end(bytes, offset), (count - 1) as nat);
    }
}

/// Appends bytes.
fn extend(out: &mut Vec<u8>, bytes: &[u8])
    ensures
        final(out)@ == old(out)@ + bytes@,
{
    out.extend_from_slice(bytes);
    assert(out@ =~= old(out)@ + bytes@);
}

fn push_u32(out: &mut Vec<u8>, value: u32)
    ensures
        final(out)@ == old(out)@ + vstd::bytes::spec_u32_to_le_bytes(value),
{
    let mut bytes = u32_to_le_bytes(value);
    out.append(&mut bytes);
}

fn push_u64(out: &mut Vec<u8>, value: u64)
    ensures
        final(out)@ == old(out)@ + vstd::bytes::spec_u64_to_le_bytes(value),
{
    let mut bytes = u64_to_le_bytes(value);
    out.append(&mut bytes);
}

fn push_time(out: &mut Vec<u8>, time: Option<i64>)
    ensures
        final(out)@ == old(out)@ + vstd::bytes::spec_u64_to_le_bytes(
            time_number(recordable(time)),
        ),
{
    let value: i64 = match time {
        Some(value) => value,
        None => i64::MIN,
    };
    push_u64(out, value as u64);
}

fn push_length(out: &mut Vec<u8>, text: &str)
    ensures
        final(out)@ == old(out)@ + length_bytes(text@),
{
    push_u32(out, text.as_bytes().len() as u32);
}

/// Appends the record of an entry.
fn push_record(out: &mut Vec<u8>, entry: &IndexedEntry)
    ensures
        final(out)@ == old(out)@ + record_bytes(record_of(*entry)),
{
    let ghost start = out@;
    let ghost record = record_of(*entry);
    let name = entry.name.as_str();
    let path = entry.path.as_str();
    let normalized_name = normalize_search_text(name);
    let normalized_path = normalize_search_text(path);
    push_u64(out, entry.entry_id);
    push_u64(out, entry.size);
    push_time(out, entry.created_ns);
    push_time(out, entry.modified_ns);
    assert(out@ =~= start + number_bytes(record));
    let ghost numbers = out@;
    push_length(out, name);
    push_length(out, path);
    push_length(out, normalized_name.as_str());
    push_length(out, normalized_path.as_str());
    assert(out@ =~= numbers + lengths_bytes(record));
    let ghost lengths = out@;
    out.push(
        if entry.hidden {
            1
        } else {
            0
        },
    );
    assert(out@ =~= lengths + seq![hidden_byte(record.hidden)]);
    let ghost fixed = out@;
    extend(out, name.as_bytes());
    extend(out, path.as_bytes());
    extend(out, normalized_name.as_str().as_bytes());
    extend(out, normalized_path.as_str().as_bytes());
    assert(out@ =~= fixed + text_bytes(record));
    assert(out@ =~= start + record_bytes(record));
}

/// The records of one more entry follow those before it.
proof fn records_bytes_extend(records: Seq<Record>, record: Record)
    ensures
        records_bytes(records.push(record)) == records_bytes(records) + record_bytes(record),
    decreases records.len(),
{
    if records.len() == 0 {
        reveal_with_fuel(records_bytes, 2);
        assert(records.push(record).drop_first() =~= Seq::empty());
        assert(records.push(record)[0] == record);
        assert(records_bytes(records.push(record)) =~= record_bytes(record));
    } else {
        assert(records.push(record).drop_first() =~= records.drop_first().push(record));
        records_bytes_extend(records.drop_first(), record);
        assert(records_bytes(records.push(record)) =~= records_bytes(records) + record_bytes(
            record,
        ));
    }
}

/// The greatest generation of some committed roots, or zero.
pub open spec fn newest_generation(committed: Seq<CommittedIndex>) -> u64
    decreases committed.len(),
{
    if committed.len() == 0 {
        0
    } else {
        let before = newest_generation(committed.drop_last());
        if before < committed.last().generation {
            committed.last().generation
        } else {
            before
        }
    }
}

/// The entries of some committed roots, one root after the other.
pub open spec fn joint_entries(committed: Seq<CommittedIndex>) -> Seq<IndexedEntry>
    decreases committed.len(),
{
    if committed.len() == 0 {
        Seq::empty()
    } else {
        joint_entries(committed.drop_last()) + committed.last().entries@
    }
}

/// The skipped locations of some committed roots, one root after the other.
pub open spec fn joint_skips(committed: Seq<CommittedIndex>) -> Seq<SkippedLocation>
    decreases committed.len(),
{
    if committed.len() == 0 {
        Seq::empty()
    } else {
        joint_skips(committed.drop_last()) + committed.last().skipped@
    }
}

/// Every committed root is covered completely.
pub open spec fn jointly_complete(committed: Seq<CommittedIndex>) -> bool {
    forall|i: int|
        0 <= i < committed.len() ==> (#[trigger] committed[i]).coverage == Coverage::Complete
}

/// Joins committed roots into one index.
pub fn combine(committed: &[CommittedIndex]) -> (joint: CommittedIndex)
    ensures
        joint.generation == newest_generation(committed@),
        joint.volume_id == 0,
        joint.root@ == Seq::<char>::empty(),
        joint.coverage == if jointly_complete(committed@) {
            Coverage::Complete
        } else {
            Coverage::Partial
        },
        joint.entries@ == joint_entries(committed@),
        joint.skipped@ == joint_skips(committed@),
        forall|i: int|
            0 <= i < committed@.len() ==> (#[trigger] committed@[i]).generation <= joint.generation,
        committed@.len() > 0 ==> exists|i: int|
            0 <= i < committed@.len() && (#[trigger] committed@[i]).generation == joint.generation,
        joint.coverage == Coverage::Partial <==> exists|i: int|
            0 <= i < committed@.len() && (#[trigger] committed@[i]).coverage == Coverage::Partial,
{
    let mut generation: u64 = 0;
    let mut complete = true;
    let mut entries: Vec<IndexedEntry> = Vec::new();
    let mut skipped: Vec<SkippedLocation> = Vec::new();
    assert(committed@.take(0) =~= Seq::empty());
    for i in 0..committed.len()
        invariant
            generation == newest_generation(committed@.take(i as int)),
            complete == jointly_complete(committed@.take(i as int)),
            entries@ == joint_entries(committed@.take(i as int)),
            skipped@ == joint_skips(committed@.take(i as int)),
    {
        let index = &committed[i];
        proof {
            let next = committed@.take(i + 1);
            assert(next.drop_last() =~= committed@.take(i as int));
            assert(next.last() == *index);
            assert(jointly_complete(next) == (jointly_complete(committed@.take(i as int))
                && index.coverage == Coverage::Complete)) by {
                assert forall|k: int| 0 <= k < i implies next[k] == #[trigger] committed@.take(
                    i as int,
                )[k] by {}
                if jointly_complete(next) {
                    assert(next[i as int].coverage == Coverage::Complete);
                    assert forall|k: int| 0 <= k < i implies (#[trigger] committed@.take(
                        i as int,
                    )[k]).coverage == Coverage::Complete by {
                        assert(next[k].coverage == Coverage::Complete);
                    }
                }
            }
        }
        if generation < index.generation {
            generation = index.generation;
        }
        complete = complete && index.coverage == Coverage::Complete;
        let ghost entries_before = entries@;
        let ghost skipped_before = skipped@;
        for k in 0..index.entries.len()
            invariant
                entries@ =~= entries_before + index.entries@.take(k as int),
        {
            entries.push(index.entries[k].clone());
        }
        assert(entries@ =~= entries_before + index.entries@);
        for k in 0..index.skipped.len()
            invariant
                skipped@ =~= skipped_before + index.skipped@.take(k as int),
        {
            skipped.push(index.skipped[k].clone());
        }
        assert(skipped@ =~= skipped_before + index.skipped@);
    }
    assert(committed@.take(committed@.len() as int) =~= committed@);
    let root = FilePath::new("");
    proof {
        joint_generation_is_the_greatest(committed@);
        reveal_strlit("");
        assert(root@ =~= Seq::empty());
    }
    CommittedIndex {
        generation,
        volume_id: 0,
        root,
        coverage: if complete {
            Coverage::Complete
        } else {
            Coverage::Partial
        },
        entries,
        skipped,
    }
}

impl<'a> SearchProjection<'a> {
    /// Writes the image of a committed index.
    pub fn build(committed: &CommittedIndex) -> (bytes: Vec<u8>)
        ensures
            bytes@ == image(committed.generation, committed.entries@),
    {
        let mut out: Vec<u8> = Vec::new();
        out.push(0x45);
        out.push(0x56);
        out.push(0x46);
        out.push(0x4C);
        out.push(0x49);
        out.push(0x44);
        out.push(0x58);
        out.push(0);
        assert(out@ =~= magic());
        push_u32(&mut out, VERSION);
        push_u64(&mut out, committed.generation);
        push_u32(&mut out, committed.entries.len() as u32);
        let ghost header = out@;
        let ghost records = records_of(committed.entries@);
        assert(records.take(0) =~= Seq::empty());
        for i in 0..committed.entries.len()
            invariant
                records == records_of(committed.entries@),
                out@ =~= header + records_bytes(records.take(i as int)),
        {
            push_record(&mut out, &committed.entries[i]);
            proof {
                records_bytes_extend(records.take(i as int), records[i as int]);
                assert(records.take(i + 1) =~= records.take(i as int).push(records[i as int]));
            }
        }
        assert(records.take(records.len() as int) =~= records);
        out
    }

    /// Writes the image of several committed roots together.
    pub fn build_combined(committed: &[CommittedIndex]) -> (bytes: Vec<u8>)
        ensures
            bytes@ == image(newest_generation(committed@), joint_entries(committed@)),
    {
        let joint = combine(committed);
        SearchProjection::build(&joint)
    }
}

/// A record whose texts have lengths that the layout can hold, and whose times are not the number
/// that stands for a missing one.
pub open spec fn holdable(record: Record) -> bool {
    &&& vstd::utf8::encode_utf8(record.name).len() <= u32::MAX
    &&& vstd::utf8::encode_utf8(record.path).len() <= u32::MAX
    &&& vstd::utf8::encode_utf8(record.normalized_name).len() <= u32::MAX
    &&& vstd::utf8::encode_utf8(record.normalized_path).len() <= u32::MAX
    &&& record.created_ns == recordable(record.created_ns)
    &&& record.modified_ns == recordable(record.modified_ns)
}

proof fn time_reads_back(time: Option<i64>)
    requires
        time == recordable(time),
    ensures
        time_of(time_number(time)) == time,
{
    match time {
        Some(value) => {
            assert((value as u64) as i64 == value) by (bit_vector);
        },
        None => {
            assert((i64::MIN as u64) as i64 == i64::MIN) by (bit_vector);
        },
    }
}

/// Four pieces in a row lie where their lengths say.
proof fn four_pieces(a: Seq<u8>, b: Seq<u8>, c: Seq<u8>, d: Seq<u8>)
    ensures
        (a + b + c + d).subrange(0, a.len() as int) == a,
        (a + b + c + d).subrange(a.len() as int, (a.len() + b.len()) as int) == b,
        (a + b + c + d).subrange(
            (a.len() + b.len()) as int,
            (a.len() + b.len() + c.len()) as int,
        ) == c,
        (a + b + c + d).subrange(
            (a.len() + b.len() + c.len()) as int,
            (a.len() + b.len() + c.len() + d.len()) as int,
        ) == d,
{
    let whole = a + b + c + d;
    assert(whole.subrange(0, a.len() as int) =~= a);
    assert(whole.subrange(a.len() as int, (a.len() + b.len()) as int) =~= b);
    assert(whole.subrange((a.len() + b.len()) as int, (a.len() + b.len() + c.len()) as int) =~= c);
    assert(whole.subrange(
        (a.len() + b.len() + c.len()) as int,
        (a.len() + b.len() + c.len() + d.len()) as int,
    ) =~= d);
}

/// A part of a part of a sequence is a part of the sequence.
proof fn part_of_part(whole: Seq<u8>, from: int, to: int, start: int, end: int)
    requires
        0 <= from <= to <= whole.len(),
        0 <= start <= end <= to - from,
    ensures
        whole.subrange(from + start, from + end) == whole.subrange(from, to).subrange(start, end),
{
    assert(whole.subrange(from + start, from + end) =~= whole.subrange(from, to).subrange(
        start,
        end,
    ));
}

/// Where the bytes of a record stand in an image, the record is read back from there.
proof fn record_reads_back(bytes: Seq<u8>, offset: int, record: Record)
    requires
        0 <= offset,
        offset + record_bytes(record).len() <= bytes.len(),
        bytes.subrange(offset, offset + record_bytes(record).len()) == record_bytes(record),
        holdable(record),
    ensures
        record_at(bytes, offset) == record,
        record_end(bytes, offset) == offset + record_bytes(record).len(),
        record_bytes(record).len() >= RECORD_LEN,
        texts_are_valid(bytes, offset),
{
    let end = offset + record_bytes(record).len();
    record_pieces(bytes, offset, record);
    numbers_read_back(bytes, offset, record);
    lengths_read_back(bytes, offset, record);
    texts_read_back(bytes, offset + 49, end, record);
    assert(record_at(bytes, offset) == record);
}

/// The four pieces of a record lie where its layout says.
proof fn record_pieces(bytes: Seq<u8>, offset: int, record: Record)
    requires
        0 <= offset,
        offset + record_bytes(record).len() <= bytes.len(),
        bytes.subrange(offset, offset + record_bytes(record).len()) == record_bytes(record),
    ensures
        record_bytes(record).len() == 49 + text_bytes(record).len(),
        bytes.subrange(offset, offset + 32) == number_bytes(record),
        bytes.subrange(offset + 32, offset + 48) == lengths_bytes(record),
        bytes[offset + 48] == hidden_byte(record.hidden),
        bytes.subrange(offset + 49, offset + record_bytes(record).len()) == text_bytes(record),
{
    vstd::bytes::lemma_auto_spec_u32_to_from_le_bytes();
    vstd::bytes::lemma_auto_spec_u64_to_from_le_bytes();
    let flag = seq![hidden_byte(record.hidden)];
    let all = record_bytes(record);
    let end = offset + all.len();
    assert(number_bytes(record).len() == 32);
    assert(lengths_bytes(record).len() == 16);
    four_pieces(number_bytes(record), lengths_bytes(record), flag, text_bytes(record));
    part_of_part(bytes, offset, end, 0, 32);
    part_of_part(bytes, offset, end, 32, 48);
    part_of_part(bytes, offset, end, 48, 49);
    part_of_part(bytes, offset, end, 49, all.len() as int);
    assert(bytes.subrange(offset + 48, offset + 49)[0] == bytes[offset + 48]);
    assert(flag[0] == hidden_byte(record.hidden));
}

proof fn texts_read_back(bytes: Seq<u8>, start: int, end: int, record: Record)
    requires
        0 <= start <= end <= bytes.len(),
        bytes.subrange(start, end) == text_bytes(record),
    ensures
        ({
            let a = start + vstd::utf8::encode_utf8(record.name).len();
            let b = a + vstd::utf8::encode_utf8(record.path).len();
            let c = b + vstd::utf8::encode_utf8(record.normalized_name).len();
            &&& end == c + vstd::utf8::encode_utf8(record.normalized_path).len()
            &&& vstd::utf8::valid_utf8(bytes.subrange(start, a))
            &&& vstd::utf8::valid_utf8(bytes.subrange(a, b))
            &&& vstd::utf8::valid_utf8(bytes.subrange(b, c))
            &&& vstd::utf8::valid_utf8(bytes.subrange(c, end))
            &&& vstd::utf8::decode_utf8(bytes.subrange(start, a)) == record.name
            &&& vstd::utf8::decode_utf8(bytes.subrange(a, b)) == record.path
            &&& vstd::utf8::decode_utf8(bytes.subrange(b, c)) == record.normalized_name
            &&& vstd::utf8::decode_utf8(bytes.subrange(c, end)) == record.normalized_path
        }),
{
    let name = vstd::utf8::encode_utf8(record.name);
    let path = vstd::utf8::encode_utf8(record.path);
    let normalized_name = vstd::utf8::encode_utf8(record.normalized_name);
    let normalized_path = vstd::utf8::encode_utf8(record.normalized_path);
    four_pieces(name, path, normalized_name, normalized_path);
    let a = name.len() as int;
    let b = a + path.len();
    let c = b + normalized_name.len();
    let d = c + normalized_path.len();
    assert(text_bytes(record) == name + path + normalized_name + normalized_path);
    assert(text_bytes(record).len() == d);
    assert(bytes.subrange(start, end).len() == end - start);
    assert(d == end - start);
    part_of_part(bytes, start, end, 0, a);
    part_of_part(bytes, start, end, a, b);
    part_of_part(bytes, start, end, b, c);
    part_of_part(bytes, start, end, c, d);
    vstd::utf8::encode_utf8_valid_utf8(record.name);
    vstd::utf8::encode_utf8_valid_utf8(record.path);
    vstd::utf8::encode_utf8_valid_utf8(record.normalized_name);
    vstd::utf8::encode_utf8_valid_utf8(record.normalized_path);
    vstd::utf8::encode_utf8_decode_utf8(record.name);
    vstd::utf8::encode_utf8_decode_utf8(record.path);
    vstd::utf8::encode_utf8_decode_utf8(record.normalized_name);
    vstd::utf8::encode_utf8_decode_utf8(record.normalized_path);
}

proof fn numbers_read_back(bytes: Seq<u8>, offset: int, record: Record)
    requires
        0 <= offset,
        offset + 32 <= bytes.len(),
        bytes.subrange(offset, offset + 32) == number_bytes(record),
        record.created_ns == recordable(record.created_ns),
        record.modified_ns == recordable(record.modified_ns),
    ensures
        u64_at(bytes, offset) == record.entry_id,
        u64_at(bytes, offset + 8) == record.size,
        time_of(u64_at(bytes, offset + 16)) == record.created_ns,
        time_of(u64_at(bytes, offset + 24)) == record.modified_ns,
{
    vstd::bytes::lemma_auto_spec_u64_to_from_le_bytes();
    four_pieces(
        vstd::bytes::spec_u64_to_le_bytes(record.entry_id),
        vstd::bytes::spec_u64_to_le_bytes(record.size),
        vstd::bytes::spec_u64_to_le_bytes(time_number(record.created_ns)),
        vstd::bytes::spec_u64_to_le_bytes(time_number(record.modified_ns)),
    );
    part_of_part(bytes, offset, offset + 32, 0, 8);
    part_of_part(bytes, offset, offset + 32, 8, 16);
    part_of_part(bytes, offset, offset + 32, 16, 24);
    part_of_part(bytes, offset, offset + 32, 24, 32);
    time_reads_back(record.created_ns);
    time_reads_back(record.modified_ns);
}

proof fn lengths_read_back(bytes: Seq<u8>, offset: int, record: Record)
    requires
        0 <= offset,
        offset + 48 <= bytes.len(),
        bytes.subrange(offset + 32, offset + 48) == lengths_bytes(record),
        holdable(record),
    ensures
        u32_at(bytes, offset + 32) == vstd::utf8::encode_utf8(record.name).len(),
        u32_at(bytes, offset + 36) == vstd::utf8::encode_utf8(record.path).len(),
        u32_at(bytes, offset + 40) == vstd::utf8::encode_utf8(record.normalized_name).len(),
        u32_at(bytes, offset + 44) == vstd::utf8::encode_utf8(record.normalized_path).len(),
{
    vstd::bytes::lemma_auto_spec_u32_to_from_le_bytes();
    four_pieces(
        length_bytes(record.name),
        length_bytes(record.path),
        length_bytes(record.normalized_name),
        length_bytes(record.normalized_path),
    );
    let start = offset + 32;
    part_of_part(bytes, start, start + 16, 0, 4);
    part_of_part(bytes, start, start + 16, 4, 8);
    part_of_part(bytes, start, start + 16, 8, 12);
    part_of_part(bytes, start, start + 16, 12, 16);
}

/// Where the bytes of some records end an image, the records are valid and read back.
proof fn records_read_back(bytes: Seq<u8>, offset: int, records: Seq<Record>)
    requires
        0 <= offset <= bytes.len(),
        bytes.len() <= usize::MAX,
        bytes.skip(offset) == records_bytes(records),
        forall|i: int| 0 <= i < records.len() ==> holdable(#[trigger] records[i]),
    ensures
        records_error(bytes, offset, records.len()) is None,
        records_at(bytes, offset, records.len()) == records,
    decreases records.len(),
{
    if records.len() == 0 {
        assert(bytes.skip(offset).len() == 0);
        assert(records_at(bytes, offset, 0) =~= records);
    } else {
        let first = record_bytes(records[0]);
        let rest = records.drop_first();
        assert(bytes.skip(offset).len() == first.len() + records_bytes(rest).len());
        assert(bytes.subrange(offset, offset + first.len()) =~= first) by {
            assert(bytes.skip(offset).take(first.len() as int) =~= first);
            assert(bytes.subrange(offset, offset + first.len()) =~= bytes.skip(offset).take(
                first.len() as int,
            ));
        }
        record_reads_back(bytes, offset, records[0]);
        let end = offset + first.len();
        assert(bytes.skip(end) =~= records_bytes(rest)) by {
            assert(bytes.skip(end) =~= bytes.skip(offset).skip(first.len() as int));
        }
        assert forall|i: int| 0 <= i < rest.len() implies holdable(#[trigger] rest[i]) by {
            assert(holdable(records[i + 1]));
        }
        records_read_back(bytes, end, rest);
        assert(records_at(bytes, offset, records.len()) =~= records);
    }
}

/// The texts of an entry have lengths that the layout can hold.
pub open spec fn entry_fits(entry: IndexedEntry) -> bool {
    &&& vstd::utf8::encode_utf8(entry.name@).len() <= u32::MAX
    &&& vstd::utf8::encode_utf8(entry.path@).len() <= u32::MAX
    &&& vstd::utf8::encode_utf8(unicode::normalized(entry.name@)).len() <= u32::MAX
    &&& vstd::utf8::encode_utf8(unicode::normalized(entry.path@)).len() <= u32::MAX
}

/// An image is accepted as the image of its generation, shows that generation, and holds exactly
/// the records of the entries it was written from.
pub proof fn image_reads_back(generation: u64, entries: Seq<IndexedEntry>)
    requires
        entries.len() <= u32::MAX,
        forall|i: int| 0 <= i < entries.len() ==> entry_fits(#[trigger] entries[i]),
        image(generation, entries).len() <= usize::MAX,
    ensures
        image_error(image(generation, entries), Some(generation)) is None,
        image_error(image(generation, entries), None) is None,
        image_generation(image(generation, entries)) == generation,
        image_records(image(generation, entries)) == records_of(entries),
{
    vstd::bytes::lemma_auto_spec_u32_to_from_le_bytes();
    vstd::bytes::lemma_auto_spec_u64_to_from_le_bytes();
    let bytes = image(generation, entries);
    let records = records_of(entries);
    let count = entries.len() as u32;
    let header = header_bytes(generation, count);
    assert(header.len() == 24);
    four_pieces(
        magic(),
        vstd::bytes::spec_u32_to_le_bytes(VERSION),
        vstd::bytes::spec_u64_to_le_bytes(generation),
        vstd::bytes::spec_u32_to_le_bytes(count),
    );
    assert(bytes.subrange(0, 24) =~= header);
    part_of_part(bytes, 0, 24, 0, 8);
    part_of_part(bytes, 0, 24, 8, 12);
    part_of_part(bytes, 0, 24, 12, 20);
    part_of_part(bytes, 0, 24, 20, 24);
    assert(bytes.take(8) =~= bytes.subrange(0, 8));
    assert(bytes.skip(24) =~= records_bytes(records));
    assert forall|i: int| 0 <= i < records.len() implies holdable(#[trigger] records[i]) by {
        assert(entry_fits(entries[i]));
    }
    records_read_back(bytes, 24, records);
}

/// An image is refused where another generation is expected.
pub proof fn another_generation_is_stale(generation: u64, entries: Seq<IndexedEntry>, expected: u64)
    requires
        entries.len() <= u32::MAX,
        forall|i: int| 0 <= i < entries.len() ==> entry_fits(#[trigger] entries[i]),
        image(generation, entries).len() <= usize::MAX,
        expected != generation,
    ensures
        image_error(image(generation, entries), Some(expected)) == Some(
            ProjectionError::StaleGeneration,
        ),
{
    image_reads_back(generation, entries);
}

/// An image of several roots holds the entries of each of them.
pub proof fn joint_entries_hold_every_root(committed: Seq<CommittedIndex>, root: int, entry: int)
    requires
        0 <= root < committed.len(),
        0 <= entry < committed[root].entries@.len(),
    ensures
        joint_entries(committed).contains(committed[root].entries@[entry]),
    decreases committed.len(),
{
    let before = joint_entries(committed.drop_last());
    let last = committed.last().entries@;
    let all = joint_entries(committed);
    if root == committed.len() - 1 {
        assert(all[before.len() + entry] == last[entry]);
    } else {
        joint_entries_hold_every_root(committed.drop_last(), root, entry);
        let at = choose|at: int|
            0 <= at < before.len() && before[at] == committed[root].entries@[entry];
        assert(all[at] == before[at]);
    }
}

/// A record is searched exactly where hidden entries are shown or it is not hidden.
pub proof fn hidden_records_are_searched_on_request_only(
    records: Seq<Record>,
    show_hidden: bool,
    at: int,
)
    requires
        0 <= at < records.len(),
    ensures
        show_hidden || !records[at].hidden ==> visible(records, show_hidden).contains(
            candidate_of(records[at]),
        ),
        forall|candidate: query::Candidate|
            #![trigger visible(records, show_hidden).contains(candidate)]
            visible(records, show_hidden).contains(candidate) ==> exists|i: int|
                0 <= i < records.len() && (show_hidden || !(#[trigger] records[i]).hidden)
                    && candidate == candidate_of(records[i]),
    decreases records.len(),
{
    let before = records.drop_last();
    let list = visible(records, show_hidden);
    let earlier = visible(before, show_hidden);
    if before.len() > 0 {
        hidden_records_are_searched_on_request_only(
            before,
            show_hidden,
            if at < before.len() {
                at
            } else {
                0
            },
        );
    }
    if show_hidden || !records[at].hidden {
        if at < before.len() {
            let i = choose|i: int|
                0 <= i < earlier.len() && earlier[i] == candidate_of(before[at]);
            assert(list[i] == earlier[i]);
        } else {
            assert(list[earlier.len() as int] == candidate_of(records[at]));
        }
    }
    assert forall|candidate: query::Candidate|
        #![trigger list.contains(candidate)]
        list.contains(candidate) implies exists|i: int|
        0 <= i < records.len() && (show_hidden || !(#[trigger] records[i]).hidden) && candidate
            == candidate_of(records[i]) by {
        let k = choose|k: int| 0 <= k < list.len() && list[k] == candidate;
        if k < earlier.len() {
            assert(earlier.contains(earlier[k]));
            let i = choose|i: int|
                0 <= i < before.len() && (show_hidden || !(#[trigger] before[i]).hidden)
                    && candidate == candidate_of(before[i]);
            assert(records[i] == before[i]);
        } else {
            assert(records[records.len() - 1] == records.last());
        }
    }
}

/// Every committed entry that is shown and holds every term of a query in its normalized name or
/// path is among the matches of a search over the image of its index.
pub proof fn committed_entries_are_found(
    generation: u64,
    entries: Seq<IndexedEntry>,
    query: Seq<char>,
    recent_opens: Map<u64, u64>,
    sort: SortOrder,
    show_hidden: bool,
    at: int,
)
    requires
        entries.len() <= u32::MAX,
        forall|i: int| 0 <= i < entries.len() ==> entry_fits(#[trigger] entries[i]),
        image(generation, entries).len() <= usize::MAX,
        0 <= at < entries.len(),
        show_hidden || !entries[at].hidden,
        candidate_of(record_of(entries[at])).matches(query::terms_of(query)),
    ensures
        query::ranking(
            sort,
            query::matches_of(
                visible(image_records(image(generation, entries)), show_hidden),
                query::terms_of(query),
                recent_opens,
            ),
        ).contains(
            candidate_of(record_of(entries[at])).ranked(
                query::terms_of(query),
                recent_opens,
            ),
        ),
{
    image_reads_back(generation, entries);
    let records = records_of(entries);
    let candidates = visible(records, show_hidden);
    assert(records[at] == record_of(entries[at]));
    hidden_records_are_searched_on_request_only(records, show_hidden, at);
    let k = choose|k: int|
        0 <= k < candidates.len() && candidates[k] == candidate_of(records[at]);
    query::matching_candidates_are_found(
        candidates,
        query::terms_of(query),
        recent_opens,
        sort,
        k,
    );
}

/// No two records share their normalized path.
pub open spec fn record_paths_differ(records: Seq<Record>) -> bool {
    forall|i: int, j: int|
        #![trigger records[i], records[j]]
        0 <= i < j < records.len() ==> records[i].normalized_path != records[j].normalized_path
}

/// A record with this normalized path is hidden.
pub open spec fn hidden_at(records: Seq<Record>, path: Seq<char>) -> bool {
    exists|i: int|
        0 <= i < records.len() && (#[trigger] records[i]).hidden && records[i].normalized_path
            == path
}

/// The matches that are not hidden, in their order.
pub open spec fn unhidden(records: Seq<Record>, list: Seq<query::Ranked>) -> Seq<query::Ranked>
    decreases list.len(),
{
    if list.len() == 0 {
        Seq::empty()
    } else {
        let before = unhidden(records, list.drop_last());
        if hidden_at(records, list.last().rank.path) {
            before
        } else {
            before.push(list.last())
        }
    }
}

proof fn unhidden_keeps(records: Seq<Record>, list: Seq<query::Ranked>)
    ensures
        forall|item: query::Ranked| #[trigger]
            unhidden(records, list).contains(item) <==> list.contains(item) && !hidden_at(
                records,
                item.rank.path,
            ),
    decreases list.len(),
{
    let kept = unhidden(records, list);
    if list.len() > 0 {
        let rest = list.drop_last();
        let last = list.len() - 1;
        let before = unhidden(records, rest);
        unhidden_keeps(records, rest);
        assert forall|item: query::Ranked| #[trigger] kept.contains(item) <==> list.contains(item)
            && !hidden_at(records, item.rank.path) by {
            if kept.contains(item) {
                let k = choose|k: int| 0 <= k < kept.len() && kept[k] == item;
                if k < before.len() {
                    assert(before[k] == item);
                    assert(before.contains(item));
                    let m = choose|m: int| 0 <= m < rest.len() && rest[m] == item;
                    assert(list[m] == item);
                } else {
                    assert(list[last] == item);
                }
            }
            if list.contains(item) && !hidden_at(records, item.rank.path) {
                let m = choose|m: int| 0 <= m < list.len() && list[m] == item;
                if m < last {
                    assert(rest[m] == item);
                    assert(rest.contains(item));
                    assert(before.contains(item));
                    let k = choose|k: int| 0 <= k < before.len() && before[k] == item;
                    assert(kept[k] == item);
                } else {
                    assert(kept[before.len() as int] == item);
                }
            }
        }
    } else {
        assert(kept =~= list);
        assert forall|item: query::Ranked| !(#[trigger] kept.contains(item)) by {}
    }
}

proof fn unhidden_stays_in_order(
    records: Seq<Record>,
    sort: SortOrder,
    list: Seq<query::Ranked>,
)
    requires
        query::in_order(sort, list),
        query::paths_differ(list),
    ensures
        query::in_order(sort, unhidden(records, list)),
        query::paths_differ(unhidden(records, list)),
    decreases list.len(),
{
    if list.len() > 0 {
        let rest = list.drop_last();
        let last = list.len() - 1;
        let before = unhidden(records, rest);
        let kept = unhidden(records, list);
        assert forall|i: int, j: int|
            #![trigger rest[i], rest[j]]
            0 <= i < j < rest.len() implies relevance::rank_order(
            sort,
            rest[i].rank,
            rest[j].rank,
        ) != Order::Greater && rest[i].rank.path != rest[j].rank.path by {
            assert(rest[i] == list[i] && rest[j] == list[j]);
        }
        unhidden_stays_in_order(records, sort, rest);
        unhidden_keeps(records, rest);
        assert forall|i: int, j: int|
            #![trigger kept[i], kept[j]]
            0 <= i < j < kept.len() implies relevance::rank_order(
            sort,
            kept[i].rank,
            kept[j].rank,
        ) != Order::Greater && kept[i].rank.path != kept[j].rank.path by {
            assert(kept[i] == before[i]);
            if j < before.len() {
                assert(kept[j] == before[j]);
            } else {
                assert(before.contains(before[i]));
                let m = choose|m: int| 0 <= m < rest.len() && rest[m] == before[i];
                assert(list[m] == before[i]);
                assert(relevance::rank_order(sort, list[m].rank, list[last].rank)
                    != Order::Greater);
                assert(list[m].rank.path != list[last].rank.path);
            }
        }
    }
}

proof fn candidates_of_records(records: Seq<Record>, show_hidden: bool)
    requires
        record_paths_differ(records),
    ensures
        query::candidate_paths_differ(visible(records, show_hidden)),
        visible(records, show_hidden).len() <= records.len(),
    decreases records.len(),
{
    if records.len() > 0 {
        let rest = records.drop_last();
        let last = records.len() - 1;
        let before = visible(rest, show_hidden);
        let all = visible(records, show_hidden);
        assert forall|i: int, j: int|
            #![trigger rest[i], rest[j]]
            0 <= i < j < rest.len() implies rest[i].normalized_path
            != rest[j].normalized_path by {
            assert(rest[i] == records[i] && rest[j] == records[j]);
        }
        candidates_of_records(rest, show_hidden);
        assert forall|i: int, j: int|
            #![trigger all[i], all[j]]
            0 <= i < j < all.len() implies all[i].path != all[j].path by {
            assert(all[i] == before[i]);
            if j < before.len() {
                assert(all[j] == before[j]);
            } else {
                assert(before.contains(before[i]));
                assert(rest.len() > 0);
                hidden_records_are_searched_on_request_only(rest, show_hidden, 0);
                let k = choose|k: int|
                    0 <= k < rest.len() && (show_hidden || !(#[trigger] rest[k]).hidden)
                        && before[i] == candidate_of(rest[k]);
                assert(records[k] == rest[k]);
                assert(records[k].normalized_path != records[last].normalized_path);
            }
        }
    }
}

/// A match among the records that are not hidden is one among all records that is not hidden.
proof fn matches_among_the_unhidden(
    records: Seq<Record>,
    terms: Seq<Seq<char>>,
    recent_opens: Map<u64, u64>,
    sort: SortOrder,
    item: query::Ranked,
)
    requires
        record_paths_differ(records),
    ensures
        query::ranking(
            sort,
            query::matches_of(visible(records, false), terms, recent_opens),
        ).contains(item) <==> query::ranking(
            sort,
            query::matches_of(visible(records, true), terms, recent_opens),
        ).contains(item) && !hidden_at(records, item.rank.path),
{
    let all = visible(records, true);
    let some = visible(records, false);
    let whole = query::ranking(sort, query::matches_of(all, terms, recent_opens));
    let part = query::ranking(sort, query::matches_of(some, terms, recent_opens));
    if part.contains(item) {
        let at = choose|at: int| 0 <= at < part.len() && part[at] == item;
        query::matches_hold_every_term(some, terms, recent_opens, sort, at);
        let i = choose|i: int|
            0 <= i < some.len() && (#[trigger] some[i]).matches(terms) && part[at]
                == some[i].ranked(terms, recent_opens);
        assert(some.contains(some[i]));
        assert(records.len() > 0);
        hidden_records_are_searched_on_request_only(records, false, 0);
        let r = choose|r: int|
            0 <= r < records.len() && (false || !(#[trigger] records[r]).hidden) && some[i]
                == candidate_of(records[r]);
        hidden_records_are_searched_on_request_only(records, true, r);
        let k = choose|k: int| 0 <= k < all.len() && all[k] == candidate_of(records[r]);
        query::matching_candidates_are_found(all, terms, recent_opens, sort, k);
        if hidden_at(records, item.rank.path) {
            let h = choose|h: int|
                0 <= h < records.len() && (#[trigger] records[h]).hidden
                    && records[h].normalized_path == item.rank.path;
            one_record_per_path(records, h, r);
        }
    }
    if whole.contains(item) && !hidden_at(records, item.rank.path) {
        let at = choose|at: int| 0 <= at < whole.len() && whole[at] == item;
        query::matches_hold_every_term(all, terms, recent_opens, sort, at);
        let i = choose|i: int|
            0 <= i < all.len() && (#[trigger] all[i]).matches(terms) && whole[at]
                == all[i].ranked(terms, recent_opens);
        assert(all.contains(all[i]));
        assert(records.len() > 0);
        hidden_records_are_searched_on_request_only(records, true, 0);
        let r = choose|r: int|
            0 <= r < records.len() && (true || !(#[trigger] records[r]).hidden) && all[i]
                == candidate_of(records[r]);
        assert(records[r].normalized_path == item.rank.path);
        assert(!records[r].hidden);
        hidden_records_are_searched_on_request_only(records, false, r);
        let k = choose|k: int| 0 <= k < some.len() && some[k] == candidate_of(records[r]);
        query::matching_candidates_are_found(some, terms, recent_opens, sort, k);
    }
}

proof fn one_record_per_path(records: Seq<Record>, left: int, right: int)
    requires
        record_paths_differ(records),
        0 <= left < records.len(),
        0 <= right < records.len(),
        records[left].normalized_path == records[right].normalized_path,
    ensures
        left == right,
{
    if left < right {
        assert(records[left].normalized_path != records[right].normalized_path);
    } else if right < left {
        assert(records[right].normalized_path != records[left].normalized_path);
    }
}

/// Leaving hidden entries out only thins a ranking: where no two records share their normalized
/// path, the ranking without hidden entries is the ranking of all entries with the hidden ones
/// left out, as many are counted, and with room for every record so are the rows.
pub proof fn hiding_only_thins_the_ranking(
    records: Seq<Record>,
    query: Seq<char>,
    recent_opens: Map<u64, u64>,
    sort: SortOrder,
    limit: int,
)
    requires
        record_paths_differ(records),
        limit >= records.len(),
    ensures
        query::ranking(
            sort,
            query::matches_of(visible(records, false), query::terms_of(query), recent_opens),
        ) == unhidden(
            records,
            query::ranking(
                sort,
                query::matches_of(visible(records, true), query::terms_of(query), recent_opens),
            ),
        ),
        query::matches_of(
            visible(records, false),
            query::terms_of(query),
            recent_opens,
        ).len() == unhidden(
            records,
            query::ranking(
                sort,
                query::matches_of(visible(records, true), query::terms_of(query), recent_opens),
            ),
        ).len(),
        query::query_rows(query, visible(records, true), recent_opens, limit, sort)
            == query::shown(
            query::ranking(
                sort,
                query::matches_of(visible(records, true), query::terms_of(query), recent_opens),
            ),
        ),
        query::query_rows(query, visible(records, false), recent_opens, limit, sort)
            == query::shown(
            unhidden(
                records,
                query::ranking(
                    sort,
                    query::matches_of(
                        visible(records, true),
                        query::terms_of(query),
                        recent_opens,
                    ),
                ),
            ),
        ),
{
    let terms = query::terms_of(query);
    let all = visible(records, true);
    let some = visible(records, false);
    let whole = query::ranking(sort, query::matches_of(all, terms, recent_opens));
    let part = query::ranking(sort, query::matches_of(some, terms, recent_opens));
    candidates_of_records(records, true);
    candidates_of_records(records, false);
    query::ranking_is_sorted(sort, query::matches_of(all, terms, recent_opens));
    query::ranking_is_sorted(sort, query::matches_of(some, terms, recent_opens));
    query::rankings_have_different_paths(sort, all, terms, recent_opens);
    query::rankings_have_different_paths(sort, some, terms, recent_opens);
    query::matches_are_candidates(all, terms, recent_opens);
    query::matches_are_candidates(some, terms, recent_opens);
    unhidden_stays_in_order(records, sort, whole);
    unhidden_keeps(records, whole);
    assert forall|item: query::Ranked| #[trigger] part.contains(item) <==> unhidden(
        records,
        whole,
    ).contains(item) by {
        matches_among_the_unhidden(records, terms, recent_opens, sort, item);
    }
    query::matches_have_one_order(sort, part, unhidden(records, whole));
}

/// The joint generation is at least that of every root and, where there is a root, that of one of
/// them.
pub proof fn joint_generation_is_the_greatest(committed: Seq<CommittedIndex>)
    ensures
        forall|i: int|
            0 <= i < committed.len() ==> (#[trigger] committed[i]).generation <= newest_generation(
                committed,
            ),
        committed.len() > 0 ==> exists|i: int|
            0 <= i < committed.len() && (#[trigger] committed[i]).generation == newest_generation(
                committed,
            ),
        committed.len() == 0 ==> newest_generation(committed) == 0,
    decreases committed.len(),
{
    if committed.len() > 0 {
        let rest = committed.drop_last();
        let last = committed.len() - 1;
        joint_generation_is_the_greatest(rest);
        assert forall|i: int| 0 <= i < committed.len() implies (
        #[trigger] committed[i]).generation <= newest_generation(committed) by {
            if i < last {
                assert(rest[i] == committed[i]);
            }
        }
        if newest_generation(rest) < committed.last().generation || rest.len() == 0 {
            assert(committed[last].generation == newest_generation(committed));
        } else {
            let i = choose|i: int|
                0 <= i < rest.len() && (#[trigger] rest[i]).generation == newest_generation(rest);
            assert(committed[i] == rest[i]);
        }
    }
}

/// The image of some roots has the generation that the store publishes for their rows, so it opens
/// for that generation.
pub proof fn joint_generation_is_the_published_one(
    committed: Seq<CommittedIndex>,
    rows: Seq<index::RootRow>,
)
    requires
        rows.len() == committed.len(),
        forall|i: int|
            0 <= i < rows.len() ==> (#[trigger] rows[i]).generation as u64
                == committed[i].generation,
    ensures
        committed.len() > 0 ==> index::newest_row(rows) == Some(newest_generation(committed)),
        committed.len() == 0 ==> index::newest_row(rows) is None,
        committed.len() > 0 && joint_entries(committed).len() <= u32::MAX && (forall|i: int|
            0 <= i < joint_entries(committed).len() ==> entry_fits(
                #[trigger] joint_entries(committed)[i],
            )) && image(newest_generation(committed), joint_entries(committed)).len()
            <= usize::MAX ==> image_error(
            image(newest_generation(committed), joint_entries(committed)),
            index::newest_row(rows),
        ) is None,
    decreases committed.len(),
{
    joint_generation_is_the_greatest(committed);
    index::newest_row_is_the_greatest(rows);
    if committed.len() > 0 {
        let newest = index::newest_row(rows)->0;
        let i = choose|i: int|
            0 <= i < committed.len() && (#[trigger] committed[i]).generation == newest_generation(
                committed,
            );
        let k = choose|k: int|
            0 <= k < rows.len() && (#[trigger] rows[k]).generation as u64 == newest;
        assert(rows[i].generation as u64 <= newest);
        assert(committed[k].generation <= newest_generation(committed));
        if joint_entries(committed).len() <= u32::MAX && (forall|i: int|
            0 <= i < joint_entries(committed).len() ==> entry_fits(
                #[trigger] joint_entries(committed)[i],
            )) && image(newest_generation(committed), joint_entries(committed)).len()
            <= usize::MAX {
            image_reads_back(newest_generation(committed), joint_entries(committed));
        }
    }
}

/// Roots are joined one behind the other: entries and skipped locations of two lists of roots are
/// those of the one and then those of the other, and those of a single root are its own.
pub proof fn roots_are_joined_in_turn(
    left: Seq<CommittedIndex>,
    right: Seq<CommittedIndex>,
    single: CommittedIndex,
)
    ensures
        joint_entries(left + right) == joint_entries(left) + joint_entries(right),
        joint_skips(left + right) == joint_skips(left) + joint_skips(right),
        joint_entries(seq![single]) == single.entries@,
        joint_skips(seq![single]) == single.skipped@,
        joint_entries(Seq::<CommittedIndex>::empty()) == Seq::<IndexedEntry>::empty(),
        joint_skips(Seq::<CommittedIndex>::empty()) == Seq::<SkippedLocation>::empty(),
    decreases right.len(),
{
    let one = seq![single];
    let none = Seq::<CommittedIndex>::empty();
    assert(one.drop_last() =~= none);
    assert(joint_entries(none) =~= Seq::<IndexedEntry>::empty());
    assert(joint_skips(none) =~= Seq::<SkippedLocation>::empty());
    assert(joint_entries(one) =~= single.entries@);
    assert(joint_skips(one) =~= single.skipped@);
    if right.len() == 0 {
        assert(left + right =~= left);
        assert(joint_entries(left) + joint_entries(right) =~= joint_entries(left));
        assert(joint_skips(left) + joint_skips(right) =~= joint_skips(left));
    } else {
        let whole = left + right;
        let rest = right.drop_last();
        assert(whole.drop_last() =~= left + rest);
        roots_are_joined_in_turn(left, rest, single);
        assert(joint_entries(left) + (joint_entries(rest) + right.last().entries@)
            =~= joint_entries(left) + joint_entries(rest) + right.last().entries@);
        assert(joint_skips(left) + (joint_skips(rest) + right.last().skipped@) =~= joint_skips(left)
            + joint_skips(rest) + right.last().skipped@);
    }
}

/// The row that a search shows of an entry.
pub open spec fn row_of_entry(entry: IndexedEntry) -> model::Row {
    model::Row {
        entry_id: entry.entry_id,
        name: entry.name@,
        path: entry.path@,
        size: entry.size,
        created_ns: if entry.created_ns == Some(i64::MIN) {
            None
        } else {
            entry.created_ns
        },
        modified_ns: if entry.modified_ns == Some(i64::MIN) {
            None
        } else {
            entry.modified_ns
        },
    }
}

/// Every word of a normalized query can be cut out of the normalized name or path of an entry.
pub open spec fn entry_holds_every_word(entry: IndexedEntry, query: Seq<char>) -> bool {
    forall|i: int|
        0 <= i < text::words(unicode::normalized(query)).len() ==> text::can_be_cut_around(
            unicode::normalized(entry.name@),
            #[trigger] text::words(unicode::normalized(query))[i],
        ) || text::can_be_cut_around(
            unicode::normalized(entry.path@),
            text::words(unicode::normalized(query))[i],
        )
}

proof fn visible_is_no_longer(records: Seq<Record>, show_hidden: bool)
    ensures
        visible(records, show_hidden).len() <= records.len(),
    decreases records.len(),
{
    if records.len() > 0 {
        visible_is_no_longer(records.drop_last(), show_hidden);
    }
}

/// What is written into an image is what a search over it shows: with room for every entry, each
/// entry that is shown and holds every word of a query stands among the rows with its identifier,
/// name, path, size and times, and every row is that of such an entry.
pub proof fn searches_show_the_entries_that_hold_every_word(
    generation: u64,
    entries: Seq<IndexedEntry>,
    query: Seq<char>,
    recent_opens: Map<u64, u64>,
    sort: SortOrder,
    show_hidden: bool,
    limit: int,
)
    requires
        entries.len() <= u32::MAX,
        forall|i: int| 0 <= i < entries.len() ==> entry_fits(#[trigger] entries[i]),
        image(generation, entries).len() <= usize::MAX,
        limit >= entries.len(),
    ensures
        forall|i: int|
            0 <= i < entries.len() && (show_hidden || !(#[trigger] entries[i]).hidden)
                && entry_holds_every_word(entries[i], query) ==> query::query_rows(
                query,
                visible(image_records(image(generation, entries)), show_hidden),
                recent_opens,
                limit,
                sort,
            ).contains(row_of_entry(entries[i])),
        forall|k: int|
            0 <= k < query::query_rows(
                query,
                visible(image_records(image(generation, entries)), show_hidden),
                recent_opens,
                limit,
                sort,
            ).len() ==> exists|i: int|
                0 <= i < entries.len() && (show_hidden || !(#[trigger] entries[i]).hidden)
                    && entry_holds_every_word(entries[i], query) && row_of_entry(entries[i])
                    == #[trigger] query::query_rows(
                    query,
                    visible(image_records(image(generation, entries)), show_hidden),
                    recent_opens,
                    limit,
                    sort,
                )[k],
{
    image_reads_back(generation, entries);
    let records = records_of(entries);
    let candidates = visible(records, show_hidden);
    let rows = query::query_rows(query, candidates, recent_opens, limit, sort);
    let places = query::a_page_shows_the_best_matches(
        sort,
        candidates,
        query,
        recent_opens,
        limit,
    );
    let all = query::places_of_matches(candidates, query);
    visible_is_no_longer(records, show_hidden);
    assert forall|i: int| 0 <= i < entries.len() implies (query::holds_every_word(
        candidate_of(records[i]),
        query,
    ) <==> entry_holds_every_word(#[trigger] entries[i], query)) && candidate_of(records[i]).row
        == row_of_entry(entries[i]) && records[i].hidden == entries[i].hidden by {
        assert(records[i] == record_of(entries[i]));
        let candidate = candidate_of(records[i]);
        assert(candidate.name == unicode::normalized(entries[i].name@));
        assert(candidate.path == unicode::normalized(entries[i].path@));
        if query::holds_every_word(candidate, query) {
            assert forall|w: int|
                0 <= w < text::words(unicode::normalized(query)).len() implies text::can_be_cut_around(
                unicode::normalized(entries[i].name@),
                #[trigger] text::words(unicode::normalized(query))[w],
            ) || text::can_be_cut_around(
                unicode::normalized(entries[i].path@),
                text::words(unicode::normalized(query))[w],
            ) by {}
        }
    }
    places_fit(places, all, candidates, query);
    assert forall|i: int|
        0 <= i < entries.len() && (show_hidden || !(#[trigger] entries[i]).hidden)
            && entry_holds_every_word(entries[i], query) implies rows.contains(
        row_of_entry(entries[i]),
    ) by {
        hidden_records_are_searched_on_request_only(records, show_hidden, i);
        let c = choose|c: int| 0 <= c < candidates.len() && candidates[c] == candidate_of(records[i]);
        assert(query::holds_every_word(candidates[c], query));
        assert(places.contains(c));
        let k = choose|k: int| 0 <= k < places.len() && places[k] == c;
        assert(rows[k] == candidates[places[k]].row);
    }
    assert forall|k: int| 0 <= k < rows.len() implies exists|i: int|
        0 <= i < entries.len() && (show_hidden || !(#[trigger] entries[i]).hidden)
            && entry_holds_every_word(entries[i], query) && row_of_entry(entries[i])
            == #[trigger] rows[k] by {
        let c = places[k];
        assert(candidates.contains(candidates[c]));
        assert(records.len() > 0);
        hidden_records_are_searched_on_request_only(records, show_hidden, 0);
        let i = choose|i: int|
            0 <= i < records.len() && (show_hidden || !(#[trigger] records[i]).hidden)
                && candidates[c] == candidate_of(records[i]);
        assert(entry_holds_every_word(entries[i], query));
        assert(row_of_entry(entries[i]) == rows[k]);
    }
}

/// As many different places as there are matches are all the places of matches.
proof fn places_fit(
    places: Seq<int>,
    all: Set<int>,
    candidates: Seq<query::Candidate>,
    query: Seq<char>,
)
    requires
        all == query::places_of_matches(candidates, query),
        all.finite(),
        places.no_duplicates(),
        all.len() <= candidates.len() ==> places.len() == all.len(),
        forall|k: int|
            0 <= k < places.len() ==> 0 <= #[trigger] places[k] < candidates.len()
                && query::holds_every_word(candidates[places[k]], query),
    ensures
        forall|c: int|
            0 <= c < candidates.len() && query::holds_every_word(#[trigger] candidates[c], query)
                ==> places.contains(c),
{
    broadcast use vstd::set_lib::group_set_properties;

    vstd::seq_lib::seq_to_set_is_finite(places);
    places.unique_seq_to_set();
    let range = vstd::set_lib::set_int_range(0, candidates.len() as int);
    vstd::set_lib::lemma_int_range(0, candidates.len() as int);
    assert(all.subset_of(range));
    vstd::set_lib::lemma_len_subset(all, range);
    assert(places.to_set().subset_of(all));
    vstd::set_lib::lemma_subset_equality(places.to_set(), all);
    assert forall|c: int|
        0 <= c < candidates.len() && query::holds_every_word(
            #[trigger] candidates[c],
            query,
        ) implies places.contains(c) by {
        assert(all.contains(c));
        assert(places.to_set().contains(c));
    }
}

/// Bytes behind a valid image make it invalid, and so does leaving out bytes at its end.
pub proof fn images_are_neither_longer_nor_shorter(
    bytes: Seq<u8>,
    extra: Seq<u8>,
    expected: Option<u64>,
    other: Option<u64>,
)
    requires
        extra.len() > 0,
    ensures
        image_error(bytes, expected) is None ==> image_error(bytes + extra, other) is Some,
        image_error(bytes + extra, expected) is None ==> image_error(bytes, other) is Some,
{
    if image_error(bytes, expected) is None {
        longer_image_is_refused(bytes, extra, expected, other);
    }
    if image_error(bytes, other) is None {
        longer_image_is_refused(bytes, extra, other, expected);
    }
}

proof fn longer_image_is_refused(
    bytes: Seq<u8>,
    extra: Seq<u8>,
    expected: Option<u64>,
    other: Option<u64>,
)
    requires
        extra.len() > 0,
        image_error(bytes, expected) is None,
    ensures
        image_error(bytes + extra, other) is Some,
{
    let longer = bytes + extra;
    assert(longer.take(8) =~= bytes.take(8));
    assert(longer.subrange(8, 12) =~= bytes.subrange(8, 12));
    assert(longer.subrange(20, 24) =~= bytes.subrange(20, 24));
    longer_records_are_refused(bytes, extra, HEADER_LEN as int, image_count(bytes) as nat);
}

proof fn longer_records_are_refused(bytes: Seq<u8>, extra: Seq<u8>, offset: int, count: nat)
    requires
        extra.len() > 0,
        0 <= offset <= bytes.len(),
        records_error(bytes, offset, count) is None,
    ensures
        records_error(bytes + extra, offset, count) is Some,
    decreases count,
{
    if count > 0 {
        let longer = bytes + extra;
        let end = record_end(bytes, offset);
        assert(longer.subrange(offset + 32, offset + 36) =~= bytes.subrange(
            offset + 32,
            offset + 36,
        ));
        assert(longer.subrange(offset + 36, offset + 40) =~= bytes.subrange(
            offset + 36,
            offset + 40,
        ));
        assert(longer.subrange(offset + 40, offset + 44) =~= bytes.subrange(
            offset + 40,
            offset + 44,
        ));
        assert(longer.subrange(offset + 44, offset + 48) =~= bytes.subrange(
            offset + 44,
            offset + 48,
        ));
        assert(record_end(longer, offset) == end);
        longer_records_are_refused(bytes, extra, end, (count - 1) as nat);
    }
}

/// Nothing is an image but what starts with the letters `EVFLIDX`, a zero and the number of the
/// fourth layout; what is laid out by any other number, be it lower or higher, is refused as such.
pub proof fn images_have_one_layout(bytes: Seq<u8>, version: u32, expected: Option<u64>)
    ensures
        image_error(bytes, expected) is None ==> bytes.len() >= 24 && bytes.take(8) == seq![
            'E' as u8,
            'V' as u8,
            'F' as u8,
            'L' as u8,
            'I' as u8,
            'D' as u8,
            'X' as u8,
            0u8,
        ] && bytes.subrange(8, 12) == vstd::bytes::spec_u32_to_le_bytes(4),
        bytes.len() >= 24 && bytes.take(8) == magic() && bytes.subrange(8, 12)
            == vstd::bytes::spec_u32_to_le_bytes(version) && version != 4 ==> image_error(
            bytes,
            expected,
        ) == Some(ProjectionError::UnsupportedVersion),
{
    vstd::bytes::lemma_auto_spec_u32_to_from_le_bytes();
    if image_error(bytes, expected) is None {
        assert(bytes.take(8) =~= seq![
            'E' as u8,
            'V' as u8,
            'F' as u8,
            'L' as u8,
            'I' as u8,
            'D' as u8,
            'X' as u8,
            0u8,
        ]);
        assert(vstd::bytes::spec_u32_to_le_bytes(u32_at(bytes, 8)) == bytes.subrange(8, 12));
    }
    if bytes.len() >= 24 && bytes.take(8) == magic() && bytes.subrange(8, 12)
        == vstd::bytes::spec_u32_to_le_bytes(version) {
        assert(vstd::bytes::spec_u32_to_le_bytes(version).len() == 4);
        assert(u32_at(bytes, 8) == version);
    }
}

/// Joined roots are covered completely exactly where each of them is: one that is covered partially
/// makes the whole partial, wherever it stands.
pub proof fn one_partial_root_makes_the_joint_index_partial(
    before: Seq<CommittedIndex>,
    partial: CommittedIndex,
    behind: Seq<CommittedIndex>,
)
    requires
        partial.coverage == Coverage::Partial,
    ensures
        !jointly_complete(before.push(partial) + behind),
        jointly_complete(before + behind) <==> jointly_complete(before) && jointly_complete(behind),
{
    let all = before.push(partial) + behind;
    assert(all[before.len() as int] == partial);
    let both = before + behind;
    if jointly_complete(both) {
        assert forall|i: int| 0 <= i < before.len() implies (#[trigger] before[i]).coverage
            == Coverage::Complete by {
            assert(both[i] == before[i]);
        }
        assert forall|i: int| 0 <= i < behind.len() implies (#[trigger] behind[i]).coverage
            == Coverage::Complete by {
            assert(both[before.len() + i] == behind[i]);
        }
    }
}

} // verus!
