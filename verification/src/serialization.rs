//! The stored form of a report: a document in which every hash is written as
//! base64 text, and the way from a report to its document and back.

use crate::errors::AppError;
use crate::hashing::MAX_HASH_BYTES;
use crate::models::{
    count_duplicates, countable, duplicate_count, groups_view, records_view,
    DeduplicationMetadata, DeduplicationReport, DuplicatesGroup, ImageInfo, ImageRecord,
    MetadataView, ReportView,
};
use image_hasher::{ImageHash, InvalidBytesError};
use vstd::prelude::*;
use vstd::string::*;
use vstd::utf8::encode_utf8;

verus! {

/// The longest text, in bytes, that is decoded: the length of the base64 text
/// of a hash of `MAX_HASH_BYTES` bytes.
pub const MAX_ENCODED_LEN: usize = 0x2AAA_AAAA;

/// `image_hasher::InvalidBytesError`, the reason why no hash was read. It is
/// only ever formatted into a message.
#[verifier::external_type_specification]
#[verifier::external_body]
pub struct ExInvalidBytesError(image_hasher::InvalidBytesError);

/// The base64 text, without padding, that `image_hasher` writes for the bytes
/// of a hash.
pub uninterp spec fn base64_text(hash: Seq<u8>) -> Seq<char>;

/// The bytes of the hash that `image_hasher` reads from a base64 text, if it
/// reads one.
pub uninterp spec fn base64_bytes(text: Seq<char>) -> Option<Seq<u8>>;

/// Length of the unpadded base64 text of `bytes` bytes: four characters for
/// every three bytes, and two or three for the one or two that are left.
pub open spec fn encoded_len(bytes: nat) -> nat {
    (bytes / 3) * 4 + if bytes % 3 == 0 {
        0
    } else {
        bytes % 3 + 1
    }
}

/// Calls `ImageHash::to_base64` of `image_hasher` on a hash rebuilt from its
/// bytes with `ImageHash::from_bytes`. The text is the unpadded standard
/// base64 encoding of the bytes; the contract names it, gives its length as
/// the encoder computes it, and states that `ImageHash::from_base64` reads the
/// same bytes back from it. `from_bytes` rejects empty input, which is left
/// out.
#[verifier::external_body]
fn image_hash_to_base64(hash: &Vec<u8>) -> (text: String)
    requires
        0 < hash.len() <= MAX_HASH_BYTES,
    ensures
        text@ == base64_text(hash@),
        encode_utf8(text@).len() == encoded_len(hash@.len()),
        base64_bytes(text@) == Some(hash@),
{
    ImageHash::<Box<[u8]>>::from_bytes(hash).unwrap().to_base64()
}

/// Calls `ImageHash::from_base64` of `image_hasher` and copies out the bytes
/// of the hash. The contract names what was read, and says that the call
/// fails exactly where nothing is read. Long input is left out because the
/// crate multiplies the decoded length by eight.
#[verifier::external_body]
fn image_hash_from_base64(text: &str) -> (decoded: Result<Vec<u8>, InvalidBytesError>)
    requires
        encode_utf8(text@).len() <= MAX_ENCODED_LEN,
    ensures
        match decoded {
            Ok(hash) => base64_bytes(text@) == Some(hash@),
            Err(_) => base64_bytes(text@).is_none(),
        },
{
    ImageHash::<Box<[u8]>>::from_base64(text).map(|hash| hash.as_bytes().to_vec())
}

/// Formats an `InvalidBytesError` of `image_hasher` with `{:?}`. Nothing is
/// claimed of the text.
#[verifier::external_body]
fn invalid_bytes_text(error: &InvalidBytesError) -> (text: String) {
    format!("{:?}", error)
}

/// The text that stands for a hash in a stored report.
pub open spec fn hash_text(hash: Seq<u8>) -> Seq<char> {
    if hash.len() == 0 {
        Seq::empty()
    } else {
        base64_text(hash)
    }
}

/// The hash that a text in a stored report stands for, if it stands for one.
pub open spec fn text_hash(text: Seq<char>) -> Option<Seq<u8>> {
    if encode_utf8(text).len() > MAX_ENCODED_LEN {
        None
    } else {
        base64_bytes(text)
    }
}

/// The start of the message of every hash that could not be read.
pub open spec fn hash_failure_prefix() -> Seq<char> {
    "Failed to parse hash from base64: "@
}

/// Writes a hash as base64 text. A hash that is not empty is read back from
/// its text by [`hash_from_base64`].
pub fn hash_to_base64(hash: &Vec<u8>) -> (text: String)
    requires
        hash.len() <= MAX_HASH_BYTES,
    ensures
        text@ == hash_text(hash@),
        hash.len() > 0 ==> text_hash(text@) == Some(hash@),
{
    if hash.len() == 0 {
        String::new()
    } else {
        image_hash_to_base64(hash)
    }
}

/// The failure to read a hash, with the reason for it.
pub fn hash_failure(reason: &str) -> (error: AppError)
    ensures
        error matches AppError::InvalidDeduplicationReport(message) && message@
            == hash_failure_prefix() + reason@,
{
    let prefix = String::from_str("Failed to parse hash from base64: ");
    AppError::InvalidDeduplicationReport(prefix.concat(reason))
}

/// Reads a hash from base64 text. Text that is too long or is not the base64
/// of a hash is rejected as an invalid report.
pub fn hash_from_base64(text: &str) -> (decoded: Result<Vec<u8>, AppError>)
    ensures
        match decoded {
            Ok(hash) => text_hash(text@) == Some(hash@),
            Err(error) => {
                &&& text_hash(text@).is_none()
                &&& error matches AppError::InvalidDeduplicationReport(message)
                &&& hash_failure_prefix().is_prefix_of(message@)
            },
        },
{
    if text.as_bytes().len() > MAX_ENCODED_LEN {
        return Err(hash_failure("text too long"));
    }
    match image_hash_from_base64(text) {
        Ok(hash) => Ok(hash),
        Err(error) => {
            let reason = invalid_bytes_text(&error);
            Err(hash_failure(reason.as_str()))
        },
    }
}

/// One image of a stored report: its path and its hash as base64 text.
#[derive(Debug, PartialEq, Eq)]
pub struct ImageEntry {
    pub path: String,
    pub hash: String,
}

/// Mathematical value of an [`ImageEntry`].
pub ghost struct EntryView {
    pub path: Seq<char>,
    pub hash: Seq<char>,
}

impl View for ImageEntry {
    type V = EntryView;

    open spec fn view(&self) -> EntryView {
        EntryView { path: self.path@, hash: self.hash@ }
    }
}

/// The values of a sequence of entries, in order.
pub open spec fn entries_view(items: Seq<ImageEntry>) -> Seq<EntryView> {
    Seq::new(items.len(), |i: int| items[i]@)
}

/// One duplicate group of a stored report.
#[derive(Debug, PartialEq, Eq)]
pub struct GroupEntry {
    pub items: Vec<ImageEntry>,
}

impl View for GroupEntry {
    type V = Seq<EntryView>;

    open spec fn view(&self) -> Seq<EntryView> {
        entries_view(self.items@)
    }
}

/// The values of a sequence of stored groups, in order.
pub open spec fn entry_groups_view(groups: Seq<GroupEntry>) -> Seq<Seq<EntryView>> {
    Seq::new(groups.len(), |i: int| groups[i]@)
}

/// A report as it is stored: text and numbers only. The number of duplicates
/// may be left out, since it follows from the groups.
#[derive(Debug, PartialEq, Eq)]
pub struct ReportDocument {
    pub metadata: DeduplicationMetadata,
    pub groups: Vec<GroupEntry>,
    pub total_duplicates: Option<usize>,
}

/// Mathematical value of a [`ReportDocument`].
pub ghost struct DocumentView {
    pub metadata: MetadataView,
    pub groups: Seq<Seq<EntryView>>,
    pub total_duplicates: Option<nat>,
}

impl View for ReportDocument {
    type V = DocumentView;

    open spec fn view(&self) -> DocumentView {
        DocumentView {
            metadata: self.metadata@,
            groups: entry_groups_view(self.groups@),
            total_duplicates: match self.total_duplicates {
                Some(count) => Some(count as nat),
                None => None,
            },
        }
    }
}

/// The stored form of a record.
pub open spec fn entry_of(record: ImageRecord) -> EntryView {
    EntryView { path: record.path, hash: hash_text(record.hash) }
}

/// The stored form of a group.
pub open spec fn entries_of(records: Seq<ImageRecord>) -> Seq<EntryView> {
    Seq::new(records.len(), |m: int| entry_of(records[m]))
}

/// The stored form of a report. The number of duplicates is stored with it.
pub open spec fn document_of(report: ReportView) -> DocumentView {
    DocumentView {
        metadata: report.metadata,
        groups: Seq::new(report.groups.len(), |g: int| entries_of(report.groups[g])),
        total_duplicates: Some(report.total_duplicates),
    }
}

/// Every hash of the report is short enough to be written.
pub open spec fn storable(report: ReportView) -> bool {
    forall|g: int, m: int|
        0 <= g < report.groups.len() && 0 <= m < report.groups[g].len() ==> (
        #[trigger] report.groups[g][m]).hash.len() <= MAX_HASH_BYTES
}

/// No hash of the report is empty.
pub open spec fn hashes_present(report: ReportView) -> bool {
    forall|g: int, m: int|
        0 <= g < report.groups.len() && 0 <= m < report.groups[g].len() ==> (
        #[trigger] report.groups[g][m]).hash.len() > 0
}

/// Every hash text of the document stands for a hash.
pub open spec fn readable(document: DocumentView) -> bool {
    forall|g: int, m: int|
        0 <= g < document.groups.len() && 0 <= m < document.groups[g].len() ==> text_hash(
            (#[trigger] document.groups[g][m]).hash,
        ).is_some()
}

/// The record that a stored entry stands for.
pub open spec fn record_of(entry: EntryView) -> ImageRecord {
    ImageRecord { path: entry.path, hash: text_hash(entry.hash).unwrap() }
}

/// The group that a stored group stands for.
pub open spec fn records_of(entries: Seq<EntryView>) -> Seq<ImageRecord> {
    Seq::new(entries.len(), |m: int| record_of(entries[m]))
}

/// The groups that the groups of a readable document stand for.
pub open spec fn groups_of(document: DocumentView) -> Seq<Seq<ImageRecord>> {
    Seq::new(document.groups.len(), |g: int| records_of(document.groups[g]))
}

/// The document gives a number of duplicates: it stores one, or one can be
/// derived from its groups.
pub open spec fn counted(document: DocumentView) -> bool {
    document.total_duplicates is None ==> countable(groups_of(document))
}

/// The report that a readable and counted document stands for. The number of
/// duplicates is taken as stored, and derived from the groups where none is
/// stored.
pub open spec fn report_of(document: DocumentView) -> ReportView {
    ReportView {
        metadata: document.metadata,
        groups: groups_of(document),
        total_duplicates: match document.total_duplicates {
            Some(count) => count,
            None => duplicate_count(groups_of(document)) as nat,
        },
    }
}

/// The message of the failure to derive the number of duplicates.
pub open spec fn uncounted_text() -> Seq<char> {
    "the number of duplicates cannot be derived from the groups"@
}

/// The message of the failure to store a hash that is too long.
pub open spec fn unstorable_text() -> Seq<char> {
    "hash too long to encode"@
}

/// Whether a hash is read back from the text that it is written as.
pub open spec fn restorable(hash: Seq<u8>) -> bool {
    text_hash(hash_text(hash)) == Some(hash)
}

/// Every hash of the report is read back from its text.
pub open spec fn hashes_restorable(report: ReportView) -> bool {
    forall|g: int, m: int|
        0 <= g < report.groups.len() && 0 <= m < report.groups[g].len() ==> restorable(
            (#[trigger] report.groups[g][m]).hash,
        )
}

/// Storing a report and loading what was stored gives the report back,
/// provided that each of its hashes is read back from its own text.
pub proof fn lemma_document_round_trip(report: ReportView)
    requires
        hashes_restorable(report),
    ensures
        readable(document_of(report)),
        counted(document_of(report)),
        report_of(document_of(report)) == report,
{
    let document = document_of(report);
    assert forall|g: int, m: int|
        0 <= g < document.groups.len() && 0 <= m < document.groups[g].len() implies text_hash(
        (#[trigger] document.groups[g][m]).hash,
    ).is_some() by {
        assert(restorable(report.groups[g][m].hash));
    }
    assert forall|g: int| 0 <= g < report.groups.len() implies report_of(document).groups[g]
        == report.groups[g] by {
        assert forall|m: int| 0 <= m < report.groups[g].len() implies records_of(
            document.groups[g],
        )[m] == report.groups[g][m] by {
            assert(restorable(report.groups[g][m].hash));
        }
        assert(records_of(document.groups[g]) =~= report.groups[g]);
    }
    assert(report_of(document).groups =~= report.groups);
}

impl DeduplicationReport {
    /// The stored form of the report. It fails where a hash is too long to be
    /// written. Every hash that is not empty is read back from its text, so
    /// where no hash is empty [`DeduplicationReport::from_document`] gives the
    /// report back from its stored form.
    pub fn to_document(&self) -> (stored: Result<ReportDocument, AppError>)
        ensures
            match stored {
                Ok(document) => {
                    &&& storable(self@)
                    &&& document@ == document_of(self@)
                    &&& hashes_present(self@) ==> {
                        &&& hashes_restorable(self@)
                        &&& readable(document@)
                        &&& counted(document@)
                        &&& report_of(document@) == self@
                    }
                },
                Err(error) => {
                    &&& !storable(self@)
                    &&& error matches AppError::SerdeError(message)
                    &&& message@ == unstorable_text()
                },
            },
    {
        let ghost report = self@;
        let mut groups: Vec<GroupEntry> = Vec::new();
        let mut g: usize = 0;
        while g < self.groups.len()
            invariant
                g <= self.groups.len(),
                report == self@,
                groups.len() == g,
                forall|k: int, m: int|
                    0 <= k < g && 0 <= m < report.groups[k].len() ==> {
                        &&& (#[trigger] report.groups[k][m]).hash.len() <= MAX_HASH_BYTES
                        &&& report.groups[k][m].hash.len() > 0 ==> restorable(
                            report.groups[k][m].hash,
                        )
                    },
                forall|k: int|
                    0 <= k < g ==> (#[trigger] groups@[k])@ == entries_of(report.groups[k]),
            decreases self.groups.len() - g,
        {
            let source = &self.groups[g].items;
            let ghost records = report.groups[g as int];
            assert(records == records_view(source@));
            let mut items: Vec<ImageEntry> = Vec::new();
            let mut m: usize = 0;
            while m < source.len()
                invariant
                    m <= source.len(),
                    g < self.groups.len(),
                    report == self@,
                    records == report.groups[g as int],
                    records == records_view(source@),
                    items.len() == m,
                    forall|k: int|
                        0 <= k < m ==> {
                            &&& (#[trigger] records[k]).hash.len() <= MAX_HASH_BYTES
                            &&& records[k].hash.len() > 0 ==> restorable(records[k].hash)
                        },
                    forall|k: int| 0 <= k < m ==> (#[trigger] items@[k])@ == entry_of(records[k]),
                decreases source.len() - m,
            {
                let record = &source[m];
                assert(record@ == records[m as int]);
                if record.hash.len() > MAX_HASH_BYTES {
                    assert(report.groups[g as int][m as int].hash.len() > MAX_HASH_BYTES);
                    return Err(AppError::SerdeError(String::from_str("hash too long to encode")));
                }
                let hash = hash_to_base64(&record.hash);
                items.push(ImageEntry { path: record.path.clone(), hash });
                m += 1;
            }
            let group = GroupEntry { items };
            assert(group@ =~= entries_of(records));
            groups.push(group);
            g += 1;
        }
        let document = ReportDocument {
            metadata: self.metadata.clone(),
            groups,
            total_duplicates: Some(self.total_duplicates),
        };
        proof {
            assert(document@.groups =~= document_of(report).groups);
            if hashes_present(report) {
                assert(hashes_restorable(report));
                lemma_document_round_trip(report);
            }
        }
        Ok(document)
    }

    /// The report that a stored document stands for. It fails where a hash
    /// text is not the base64 of a hash, and where no number of duplicates is
    /// stored and none can be derived.
    pub fn from_document(document: &ReportDocument) -> (loaded: Result<Self, AppError>)
        ensures
            match loaded {
                Ok(report) => {
                    &&& readable(document@)
                    &&& counted(document@)
                    &&& report@ == report_of(document@)
                },
                Err(error) => {
                    &&& !readable(document@) || !counted(document@)
                    &&& error matches AppError::InvalidDeduplicationReport(message)
                    &&& !readable(document@) ==> hash_failure_prefix().is_prefix_of(message@)
                    &&& readable(document@) ==> message@ == uncounted_text()
                },
            },
    {
        let ghost stored = document@;
        let mut groups: Vec<DuplicatesGroup> = Vec::new();
        let mut g: usize = 0;
        while g < document.groups.len()
            invariant
                g <= document.groups.len(),
                stored == document@,
                groups.len() == g,
                forall|k: int, m: int|
                    0 <= k < g && 0 <= m < stored.groups[k].len() ==> text_hash(
                        (#[trigger] stored.groups[k][m]).hash,
                    ).is_some(),
                forall|k: int|
                    0 <= k < g ==> (#[trigger] groups@[k])@ == records_of(stored.groups[k]),
            decreases document.groups.len() - g,
        {
            let source = &document.groups[g].items;
            let ghost entries = stored.groups[g as int];
            assert(entries == entries_view(source@));
            let mut items: Vec<ImageInfo> = Vec::new();
            let mut m: usize = 0;
            while m < source.len()
                invariant
                    m <= source.len(),
                    g < document.groups.len(),
                    stored == document@,
                    entries == stored.groups[g as int],
                    entries == entries_view(source@),
                    items.len() == m,
                    forall|k: int|
                        0 <= k < m ==> text_hash((#[trigger] entries[k]).hash).is_some(),
                    forall|k: int| 0 <= k < m ==> (#[trigger] items@[k])@ == record_of(entries[k]),
                decreases source.len() - m,
            {
                let entry = &source[m];
                assert(entry@ == entries[m as int]);
                match hash_from_base64(entry.hash.as_str()) {
                    Ok(hash) => {
                        items.push(ImageInfo { path: entry.path.clone(), hash });
                    },
                    Err(error) => {
                        assert(text_hash(stored.groups[g as int][m as int].hash).is_none());
                        return Err(error);
                    },
                }
                m += 1;
            }
            let group = DuplicatesGroup { items };
            assert(group@ =~= records_of(entries));
            groups.push(group);
            g += 1;
        }
        assert(groups_view(groups@) =~= groups_of(stored));
        let total_duplicates = match document.total_duplicates {
            Some(count) => count,
            None => match count_duplicates(&groups) {
                Some(count) => count,
                None => {
                    let message = String::from_str(
                        "the number of duplicates cannot be derived from the groups",
                    );
                    return Err(AppError::InvalidDeduplicationReport(message));
                },
            },
        };
        Ok(DeduplicationReport { metadata: document.metadata.clone(), groups, total_duplicates })
    }
}

} // verus!
