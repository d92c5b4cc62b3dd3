//! Directory records: the entries they describe, and the decoding of an
//! extent of records into those entries.
//!
//! An extent is scanned from its first byte. Each record starts with its own
//! length; a length of zero says that the rest of the sector is padding, and
//! the scan goes on at the next multiple of 2048.

use vstd::prelude::*;
use vstd::slice::slice_subrange;
use crate::layout::{
    le_u32_at, read_le_u32, DIRECTORY_FLAG, EXTENT_OFFSET, FLAGS_OFFSET, LENGTH_OFFSET,
    NAME_LENGTH_OFFSET, NAME_OFFSET, SECTOR_SIZE,
};
use crate::text::{
    before_sep, decode_lossy, decoded_text, is_marker, is_special, lemma_before_sep,
    lemma_index_of_sep, strip_version, VERSION_SEPARATOR,
};

verus! {

/// One entry of a directory: a file or a subdirectory.
#[derive(Debug, PartialEq, Eq)]
pub struct DirEntry {
    /// The identifier, without its version suffix.
    pub name: String,
    /// Logical block at which the entry's data begins.
    pub lba: u32,
    /// Length of the entry's data in bytes.
    pub size: u32,
    /// Whether the entry is a subdirectory.
    pub is_dir: bool,
}

/// The entries of one directory, in the order of their records.
#[derive(Debug, PartialEq, Eq)]
pub struct Directory {
    /// The entries, markers left out.
    pub entries: Vec<DirEntry>,
}

/// What a [`DirEntry`] is in contracts: its fields, the name as characters.
pub struct EntryModel {
    /// The identifier, without its version suffix.
    pub name: Seq<char>,
    /// Logical block at which the entry's data begins.
    pub lba: u32,
    /// Length of the entry's data in bytes.
    pub size: u32,
    /// Whether the entry is a subdirectory.
    pub is_dir: bool,
}

impl View for DirEntry {
    type V = EntryModel;

    open spec fn view(&self) -> EntryModel {
        EntryModel { name: self.name@, lba: self.lba, size: self.size, is_dir: self.is_dir }
    }
}

/// The models of a sequence of entries, in the same order.
pub open spec fn entry_models(entries: Seq<DirEntry>) -> Seq<EntryModel> {
    entries.map_values(|e: DirEntry| e@)
}

impl View for Directory {
    type V = Seq<EntryModel>;

    open spec fn view(&self) -> Seq<EntryModel> {
        entry_models(self.entries@)
    }
}

impl Clone for DirEntry {
    fn clone(&self) -> (copy: DirEntry)
        ensures
            copy == *self,
    {
        DirEntry { name: self.name.clone(), lba: self.lba, size: self.size, is_dir: self.is_dir }
    }
}

impl Clone for Directory {
    fn clone(&self) -> (copy: Directory)
        ensures
            copy.entries@ == self.entries@,
    {
        let mut entries: Vec<DirEntry> = Vec::new();
        let mut i: usize = 0;
        while i < self.entries.len()
            invariant
                i <= self.entries.len(),
                entries@ == self.entries@.subrange(0, i as int),
            decreases self.entries.len() - i,
        {
            entries.push(self.entries[i].clone());
            i = i + 1;
        }
        Directory { entries }
    }
}

/// The entry that a record with this text and these fields describes: none for
/// the two markers, else one named by the text before its first `;`.
pub open spec fn entry_of(text: Seq<char>, lba: u32, size: u32, flags: u8) -> Option<EntryModel> {
    if is_marker(text) {
        None
    } else {
        Some(
            EntryModel {
                name: before_sep(text, VERSION_SEPARATOR),
                lba,
                size,
                is_dir: flags & DIRECTORY_FLAG != 0,
            },
        )
    }
}

/// Whether a record holds its fixed fields and the identifier they announce.
pub open spec fn record_well_formed(record: Seq<u8>) -> bool {
    &&& record.len() >= NAME_OFFSET
    &&& NAME_OFFSET + record[NAME_LENGTH_OFFSET as int] <= record.len()
}

/// The identifier's bytes within a record.
pub open spec fn record_identifier(record: Seq<u8>) -> Seq<u8> {
    record.subrange(NAME_OFFSET as int, NAME_OFFSET + record[NAME_LENGTH_OFFSET as int])
}

/// The entry that a record describes, if it is not a marker.
pub open spec fn record_entry(record: Seq<u8>) -> Option<EntryModel> {
    entry_of(
        decoded_text(record_identifier(record)),
        le_u32_at(record, EXTENT_OFFSET as int),
        le_u32_at(record, LENGTH_OFFSET as int),
        record[FLAGS_OFFSET as int],
    )
}

/// The first multiple of 2048 after `pos`.
pub open spec fn next_boundary(pos: int) -> int {
    (pos / (SECTOR_SIZE as int) + 1) * SECTOR_SIZE
}

/// The bytes of the record that starts at `pos`.
pub open spec fn record_at(data: Seq<u8>, pos: int) -> Seq<u8> {
    data.subrange(pos, pos + data[pos])
}

/// How many bytes of `data` lie at or after `pos`.
pub open spec fn bytes_left(data: Seq<u8>, pos: int) -> nat {
    if 0 <= pos <= data.len() {
        (data.len() - pos) as nat
    } else {
        0
    }
}

/// Whether every record met by a scan of `data` from `pos` lies within `data`
/// and is well formed.
pub open spec fn well_formed_from(data: Seq<u8>, pos: int) -> bool
    decreases bytes_left(data, pos),
{
    if pos < 0 || pos >= data.len() {
        true
    } else if data[pos] == 0 {
        well_formed_from(data, next_boundary(pos))
    } else {
        &&& pos + data[pos] <= data.len()
        &&& record_well_formed(record_at(data, pos))
        &&& well_formed_from(data, pos + data[pos])
    }
}

/// The entries that a scan of `data` from `pos` meets, in order.
pub open spec fn entries_from(data: Seq<u8>, pos: int) -> Seq<EntryModel>
    decreases bytes_left(data, pos),
{
    if pos < 0 || pos >= data.len() {
        Seq::empty()
    } else if data[pos] == 0 {
        entries_from(data, next_boundary(pos))
    } else {
        let rest = entries_from(data, pos + data[pos]);
        match record_entry(record_at(data, pos)) {
            Some(entry) => seq![entry] + rest,
            None => rest,
        }
    }
}

/// Whether the records of a directory extent can be decoded.
pub open spec fn directory_well_formed(data: Seq<u8>) -> bool {
    well_formed_from(data, 0)
}

/// The entries of a directory extent.
pub open spec fn directory_entries(data: Seq<u8>) -> Seq<EntryModel> {
    entries_from(data, 0)
}

/// Builds the entry for a record from its decoded identifier and its fields.
/// The markers of the directory itself and of its parent give no entry.
pub fn entry_from_text(text: &str, lba: u32, size: u32, flags: u8) -> (entry: Option<DirEntry>)
    ensures
        match entry {
            Some(e) => entry_of(text@, lba, size, flags) == Some(e@),
            None => entry_of(text@, lba, size, flags) is None,
        },
{
    if is_special(text) {
        None
    } else {
        Some(DirEntry { name: strip_version(text), lba, size, is_dir: flags & DIRECTORY_FLAG != 0 })
    }
}

/// Decodes one record.
pub fn decode_record(record: &[u8]) -> (entry: Option<DirEntry>)
    requires
        record_well_formed(record@),
    ensures
        match entry {
            Some(e) => record_entry(record@) == Some(e@),
            None => record_entry(record@) is None,
        },
{
    let lba: u32 = read_le_u32(record, EXTENT_OFFSET);
    let size: u32 = read_le_u32(record, LENGTH_OFFSET);
    let flags: u8 = record[FLAGS_OFFSET];
    let name_len: usize = record[NAME_LENGTH_OFFSET] as usize;
    let text: String = decode_lossy(slice_subrange(record, NAME_OFFSET, NAME_OFFSET + name_len));
    entry_from_text(text.as_str(), lba, size, flags)
}

/// Tells whether the records of a directory extent can be decoded: whether
/// each of them lies within the extent and holds its identifier.
pub fn check_directory(data: &[u8]) -> (ok: bool)
    ensures
        ok == directory_well_formed(data@),
{
    let mut pos: usize = 0;
    while pos < data.len()
        invariant
            directory_well_formed(data@) == well_formed_from(data@, pos as int),
        decreases data.len() - pos,
    {
        let len: usize = data[pos] as usize;
        if len == 0 {
            let skip: usize = SECTOR_SIZE - pos % SECTOR_SIZE;
            if data.len() - pos <= skip {
                assert(well_formed_from(data@, next_boundary(pos as int)));
                return true;
            }
            pos = pos + skip;
        } else {
            if len < NAME_OFFSET || data.len() - pos < len {
                return false;
            }
            let name_len: usize = data[pos + NAME_LENGTH_OFFSET] as usize;
            if NAME_OFFSET + name_len > len {
                return false;
            }
            pos = pos + len;
        }
    }
    true
}

/// Decodes a directory extent into its entries, in the order of their records.
///
/// The records must be well formed, which [`check_directory`] tells.
pub fn parse_directory(data: &[u8]) -> (entries: Vec<DirEntry>)
    requires
        directory_well_formed(data@),
    ensures
        entry_models(entries@) == directory_entries(data@),
{
    let mut pos: usize = 0;
    let mut entries: Vec<DirEntry> = Vec::new();
    while pos < data.len()
        invariant
            well_formed_from(data@, pos as int),
            directory_entries(data@) == entry_models(entries@) + entries_from(data@, pos as int),
        decreases data.len() - pos,
    {
        let len: usize = data[pos] as usize;
        if len == 0 {
            let skip: usize = SECTOR_SIZE - pos % SECTOR_SIZE;
            if data.len() - pos <= skip {
                assert(entries_from(data@, next_boundary(pos as int)).len() == 0);
                return entries;
            }
            pos = pos + skip;
        } else {
            let record: &[u8] = slice_subrange(data, pos, pos + len);
            let ghost before = entries@;
            match decode_record(record) {
                Some(entry) => {
                    entries.push(entry);
                },
                None => {},
            }
            pos = pos + len;
        }
    }
    entries
}

/// Whether a scan of `data` from `pos` meets a record that starts at `at`.
pub open spec fn scan_meets(data: Seq<u8>, pos: int, at: int) -> bool
    decreases bytes_left(data, pos),
{
    if pos < 0 || pos >= data.len() {
        false
    } else if data[pos] == 0 {
        scan_meets(data, next_boundary(pos), at)
    } else {
        pos == at || scan_meets(data, pos + data[pos], at)
    }
}

/// Every entry of a directory is the entry of a record that the scan meets;
/// the result is where such a record starts.
pub proof fn lemma_entry_has_record(data: Seq<u8>, pos: int, i: int) -> (at: int)
    requires
        0 <= i < entries_from(data, pos).len(),
    ensures
        scan_meets(data, pos, at),
        record_entry(record_at(data, at)) == Some(entries_from(data, pos)[i]),
    decreases bytes_left(data, pos),
{
    if pos < 0 || pos >= data.len() {
        pos
    } else if data[pos] == 0 {
        lemma_entry_has_record(data, next_boundary(pos), i)
    } else {
        match record_entry(record_at(data, pos)) {
            Some(entry) => {
                if i == 0 {
                    pos
                } else {
                    lemma_entry_has_record(data, pos + data[pos], i - 1)
                }
            },
            None => lemma_entry_has_record(data, pos + data[pos], i),
        }
    }
}

/// The entry of a record is named by the text of its identifier up to the
/// first `;`: an identifier that holds one loses it and all that follows, and
/// an identifier that holds none is the name.
pub proof fn lemma_name_of_record(record: Seq<u8>)
    requires
        record_entry(record) is Some,
    ensures
        ({
            let text = decoded_text(record_identifier(record));
            let name = record_entry(record)->Some_0.name;
            &&& !is_marker(text)
            &&& name == before_sep(text, VERSION_SEPARATOR)
            &&& name == text.subrange(0, name.len() as int)
            &&& !name.contains(VERSION_SEPARATOR)
            &&& text.contains(VERSION_SEPARATOR) ==> {
                &&& name.len() < text.len()
                &&& text[name.len() as int] == VERSION_SEPARATOR
            }
            &&& !text.contains(VERSION_SEPARATOR) ==> name == text
        }),
{
    lemma_before_sep(decoded_text(record_identifier(record)), VERSION_SEPARATOR);
}

/// Whether a text is a marker followed by a version suffix: the one kind of
/// identifier that is not a marker and yet is named like one once the suffix
/// is dropped.
pub open spec fn is_versioned_marker(text: Seq<char>) -> bool {
    &&& text.len() >= 2
    &&& text[0] == '\u{0}' || text[0] == '\u{1}'
    &&& text[1] == VERSION_SEPARATOR
}

/// The name given to an identifier that is not a marker is a marker only
/// where the identifier is a marker followed by a version suffix.
pub proof fn lemma_name_is_marker(text: Seq<char>)
    requires
        !is_marker(text),
    ensures
        is_marker(before_sep(text, VERSION_SEPARATOR)) <==> is_versioned_marker(text),
{
    lemma_index_of_sep(text, VERSION_SEPARATOR);
}

/// No entry of a directory is named by a marker, as long as no record's
/// identifier is a marker followed by a version suffix.
pub proof fn lemma_markers_left_out(data: Seq<u8>, pos: int, i: int)
    requires
        forall|at: int|
            scan_meets(data, pos, at) ==> !is_versioned_marker(
                #[trigger] decoded_text(record_identifier(record_at(data, at))),
            ),
        0 <= i < entries_from(data, pos).len(),
    ensures
        !is_marker(entries_from(data, pos)[i].name),
    decreases bytes_left(data, pos),
{
    if pos < 0 || pos >= data.len() {
    } else if data[pos] == 0 {
        lemma_markers_left_out(data, next_boundary(pos), i);
    } else {
        let next = pos + data[pos];
        let text = decoded_text(record_identifier(record_at(data, pos)));
        match record_entry(record_at(data, pos)) {
            Some(entry) => {
                if i == 0 {
                    lemma_name_is_marker(text);
                } else {
                    lemma_markers_left_out(data, next, i - 1);
                }
            },
            None => {
                lemma_markers_left_out(data, next, i);
            },
        }
    }
}

/// A record of length zero ends its sector: the scan goes on at the next
/// multiple of 2048, which lies at most 2048 bytes further on.
pub proof fn lemma_padding_skipped(data: Seq<u8>, pos: int)
    requires
        0 <= pos < data.len(),
        data[pos] == 0,
    ensures
        entries_from(data, pos) == entries_from(data, next_boundary(pos)),
        well_formed_from(data, pos) == well_formed_from(data, next_boundary(pos)),
        next_boundary(pos) % (SECTOR_SIZE as int) == 0,
        pos < next_boundary(pos) <= pos + SECTOR_SIZE,
{
}

/// Behind a whole number of sectors, a scan goes as it does on what follows
/// them alone.
proof fn lemma_scan_behind_sectors(first: Seq<u8>, second: Seq<u8>, pos: int)
    requires
        first.len() % SECTOR_SIZE as nat == 0,
        0 <= pos,
        well_formed_from(second, pos),
    ensures
        well_formed_from(first + second, first.len() + pos),
        entries_from(first + second, first.len() + pos) == entries_from(second, pos),
    decreases bytes_left(second, pos),
{
    if pos < second.len() {
        if second[pos] == 0 {
            lemma_scan_behind_sectors(first, second, next_boundary(pos));
        } else {
            assert(record_at(first + second, first.len() + pos) == record_at(second, pos));
            lemma_scan_behind_sectors(first, second, pos + second[pos]);
        }
    }
}

/// Within a whole number of sectors that are followed by more records, a scan
/// meets the records of those sectors and then the ones that follow.
proof fn lemma_scan_within_sectors(first: Seq<u8>, second: Seq<u8>, pos: int)
    requires
        first.len() % SECTOR_SIZE as nat == 0,
        0 <= pos <= first.len(),
        well_formed_from(first, pos),
        directory_well_formed(second),
    ensures
        well_formed_from(first + second, pos),
        entries_from(first + second, pos) == entries_from(first, pos) + directory_entries(second),
    decreases bytes_left(first, pos),
{
    if pos == first.len() {
        lemma_scan_behind_sectors(first, second, 0);
    } else if first[pos] == 0 {
        lemma_scan_within_sectors(first, second, next_boundary(pos));
    } else {
        assert(record_at(first + second, pos) == record_at(first, pos));
        lemma_scan_within_sectors(first, second, pos + first[pos]);
    }
}

/// The sectors of a directory decode apart: the entries of a whole number of
/// sectors followed by more records are the entries of those sectors, then
/// the entries of what follows. Padding at the end of a sector hides nothing
/// of the next one.
pub proof fn lemma_sectors_decode_apart(first: Seq<u8>, second: Seq<u8>)
    requires
        first.len() % SECTOR_SIZE as nat == 0,
        directory_well_formed(first),
        directory_well_formed(second),
    ensures
        directory_well_formed(first + second),
        directory_entries(first + second) == directory_entries(first) + directory_entries(second),
{
    lemma_scan_within_sectors(first, second, 0);
}

} // verus!
