//! The report data model: image records, duplicate groups and the report that
//! holds the outcome of one clustering pass.

use crate::hashing::MAX_HASH_BYTES;
use crate::text::{decimal, decimal_string};
use vstd::prelude::*;
use vstd::string::*;

verus! {

/// Mathematical value of an [`ImageInfo`]: a path and the bytes of a hash.
pub ghost struct ImageRecord {
    pub path: Seq<char>,
    pub hash: Seq<u8>,
}

/// One cataloged image: where it lies and its perceptual hash.
#[derive(Debug, PartialEq, Eq)]
pub struct ImageInfo {
    pub path: String,
    pub hash: Vec<u8>,
}

impl View for ImageInfo {
    type V = ImageRecord;

    open spec fn view(&self) -> ImageRecord {
        ImageRecord { path: self.path@, hash: self.hash@ }
    }
}

impl Clone for ImageInfo {
    fn clone(&self) -> (copy: Self)
        ensures
            copy@ == self@,
    {
        let hash = self.hash.clone();
        assert(hash@ =~= self.hash@);
        ImageInfo { path: self.path.clone(), hash }
    }
}

impl ImageInfo {
    /// The hash is short enough for its bit count to fit in a `u32`.
    pub open spec fn well_formed(&self) -> bool {
        self.hash@.len() <= MAX_HASH_BYTES
    }

    /// Tests [`ImageInfo::well_formed`].
    pub fn is_well_formed(&self) -> (ok: bool)
        ensures
            ok == self.well_formed(),
    {
        self.hash.len() <= MAX_HASH_BYTES
    }
}

/// The values of a sequence of records, in order.
pub open spec fn records_view(items: Seq<ImageInfo>) -> Seq<ImageRecord> {
    Seq::new(items.len(), |i: int| items[i]@)
}

/// Every record of the sequence is well formed.
pub open spec fn records_well_formed(items: Seq<ImageInfo>) -> bool {
    forall|i: int| 0 <= i < items.len() ==> (#[trigger] items[i]).well_formed()
}

/// Tests [`records_well_formed`].
pub fn all_well_formed(items: &Vec<ImageInfo>) -> (ok: bool)
    ensures
        ok == records_well_formed(items@),
{
    let mut i: usize = 0;
    while i < items.len()
        invariant
            i <= items.len(),
            forall|k: int| 0 <= k < i ==> (#[trigger] items@[k]).well_formed(),
        decreases items.len() - i,
    {
        if !items[i].is_well_formed() {
            return false;
        }
        i += 1;
    }
    true
}

/// Images found to be near-duplicates of one another. The first member is the
/// canonical one, which is kept when the others are removed.
#[derive(Debug, PartialEq, Eq)]
pub struct DuplicatesGroup {
    pub items: Vec<ImageInfo>,
}

impl View for DuplicatesGroup {
    type V = Seq<ImageRecord>;

    open spec fn view(&self) -> Seq<ImageRecord> {
        records_view(self.items@)
    }
}

impl Clone for DuplicatesGroup {
    fn clone(&self) -> (copy: Self)
        ensures
            copy@ == self@,
    {
        let mut items: Vec<ImageInfo> = Vec::new();
        let mut i: usize = 0;
        while i < self.items.len()
            invariant
                i <= self.items.len(),
                items.len() == i,
                forall|k: int| 0 <= k < i ==> (#[trigger] items@[k])@ == self.items@[k]@,
            decreases self.items.len() - i,
        {
            items.push(self.items[i].clone());
            i += 1;
        }
        assert(records_view(items@) =~= records_view(self.items@));
        DuplicatesGroup { items }
    }
}

/// The values of a sequence of groups, in order.
pub open spec fn groups_view(groups: Seq<DuplicatesGroup>) -> Seq<Seq<ImageRecord>> {
    Seq::new(groups.len(), |i: int| groups[i]@)
}

/// Whether `path` is the path of some member of some group.
pub open spec fn is_member(groups: Seq<Seq<ImageRecord>>, path: Seq<char>) -> bool {
    exists|g: int, m: int|
        0 <= g < groups.len() && 0 <= m < groups[g].len() && (#[trigger] groups[g][m]).path == path
}

/// The paths of all members of all groups.
pub open spec fn member_paths_of(groups: Seq<Seq<ImageRecord>>) -> Set<Seq<char>> {
    Set::new(|path: Seq<char>| is_member(groups, path))
}

/// The groups part the images they hold: every group has at least two
/// members, and no path is a member of two groups.
pub open spec fn groups_partition(groups: Seq<Seq<ImageRecord>>) -> bool {
    &&& forall|g: int| 0 <= g < groups.len() ==> (#[trigger] groups[g]).len() >= 2
    &&& forall|g: int, h: int, m: int, k: int|
        0 <= g < groups.len() && 0 <= h < groups.len() && g != h && 0 <= m < groups[g].len() && 0
            <= k < groups[h].len() ==> (#[trigger] groups[g][m]).path != (
        #[trigger] groups[h][k]).path
}

/// Number of members over all groups.
pub open spec fn member_count(groups: Seq<Seq<ImageRecord>>) -> nat
    decreases groups.len(),
{
    if groups.len() == 0 {
        0
    } else {
        member_count(groups.drop_last()) + groups.last().len()
    }
}

/// Number of removable files: every member that is not the canonical one of
/// its group.
pub open spec fn duplicate_count(groups: Seq<Seq<ImageRecord>>) -> int {
    member_count(groups) - groups.len()
}

/// The number of duplicates can be derived from the groups as a `usize`:
/// there are no more groups than members, and the members can be counted.
pub open spec fn countable(groups: Seq<Seq<ImageRecord>>) -> bool {
    groups.len() <= member_count(groups) <= usize::MAX
}

/// The members of the first `n` groups are among the members of all groups.
pub proof fn lemma_member_count_prefix(groups: Seq<Seq<ImageRecord>>, n: int)
    requires
        0 <= n <= groups.len(),
    ensures
        member_count(groups.take(n)) <= member_count(groups),
    decreases groups.len(),
{
    if n == groups.len() {
        assert(groups.take(n) =~= groups);
    } else {
        lemma_member_count_prefix(groups.drop_last(), n);
        assert(groups.drop_last().take(n) =~= groups.take(n));
    }
}

/// Derives the number of duplicates from the groups: all their members but
/// one canonical member for each group. There is none where the groups
/// outnumber their members, or the members cannot be counted in a `usize`.
pub fn count_duplicates(groups: &Vec<DuplicatesGroup>) -> (count: Option<usize>)
    ensures
        match count {
            Some(duplicates) => countable(groups_view(groups@)) && duplicates == duplicate_count(
                groups_view(groups@),
            ),
            None => !countable(groups_view(groups@)),
        },
{
    let ghost all = groups_view(groups@);
    let mut members: usize = 0;
    let mut i: usize = 0;
    while i < groups.len()
        invariant
            i <= groups.len(),
            all == groups_view(groups@),
            members == member_count(all.take(i as int)),
        decreases groups.len() - i,
    {
        proof {
            lemma_member_count_prefix(all, i + 1);
            assert(all.take(i + 1).drop_last() =~= all.take(i as int));
            assert(all.take(i + 1).last().len() == groups@[i as int].items@.len());
        }
        let size = groups[i].items.len();
        if size > usize::MAX - members {
            return None;
        }
        members = members + size;
        i += 1;
    }
    assert(all.take(i as int) =~= all);
    if members < groups.len() {
        None
    } else {
        Some(members - groups.len())
    }
}

/// Where the scan took place and how close two hashes had to be.
#[derive(Debug, PartialEq, Eq)]
pub struct DeduplicationMetadata {
    pub directory_path: String,
    pub threshold: u32,
}

/// Mathematical value of a [`DeduplicationMetadata`].
pub ghost struct MetadataView {
    pub directory_path: Seq<char>,
    pub threshold: u32,
}

impl View for DeduplicationMetadata {
    type V = MetadataView;

    open spec fn view(&self) -> MetadataView {
        MetadataView { directory_path: self.directory_path@, threshold: self.threshold }
    }
}

impl Clone for DeduplicationMetadata {
    fn clone(&self) -> (copy: Self)
        ensures
            copy@ == self@,
    {
        DeduplicationMetadata {
            directory_path: self.directory_path.clone(),
            threshold: self.threshold,
        }
    }
}

/// The outcome of one clustering pass over a directory.
#[derive(Debug, PartialEq, Eq)]
pub struct DeduplicationReport {
    pub metadata: DeduplicationMetadata,
    pub groups: Vec<DuplicatesGroup>,
    pub total_duplicates: usize,
}

/// Mathematical value of a [`DeduplicationReport`].
pub ghost struct ReportView {
    pub metadata: MetadataView,
    pub groups: Seq<Seq<ImageRecord>>,
    pub total_duplicates: nat,
}

impl View for DeduplicationReport {
    type V = ReportView;

    open spec fn view(&self) -> ReportView {
        ReportView {
            metadata: self.metadata@,
            groups: groups_view(self.groups@),
            total_duplicates: self.total_duplicates as nat,
        }
    }
}

impl Clone for DeduplicationReport {
    fn clone(&self) -> (copy: Self)
        ensures
            copy@ == self@,
    {
        let mut groups: Vec<DuplicatesGroup> = Vec::new();
        let mut i: usize = 0;
        while i < self.groups.len()
            invariant
                i <= self.groups.len(),
                groups.len() == i,
                forall|k: int| 0 <= k < i ==> (#[trigger] groups@[k])@ == self.groups@[k]@,
            decreases self.groups.len() - i,
        {
            groups.push(self.groups[i].clone());
            i += 1;
        }
        assert(groups_view(groups@) =~= groups_view(self.groups@));
        DeduplicationReport {
            metadata: self.metadata.clone(),
            groups,
            total_duplicates: self.total_duplicates,
        }
    }
}

/// The text of the summary of a report.
pub open spec fn summary_text(report: ReportView) -> Seq<char> {
    "Deduplication Report:\n"@ + "Directory path: "@ + report.metadata.directory_path + "\n"@
        + "Similarity threshold: "@ + decimal(report.metadata.threshold as nat) + "\n"@
        + "Number of duplicate groups: "@ + decimal(report.groups.len()) + "\n"@
        + "Total number of duplicates: "@ + decimal(report.total_duplicates) + "\n"@
}

impl DeduplicationReport {
    /// The report is one of a clustering pass: its groups part the images
    /// they hold, and the derived count agrees with the groups.
    pub open spec fn well_formed(&self) -> bool {
        &&& groups_partition(groups_view(self.groups@))
        &&& self.total_duplicates as int == duplicate_count(groups_view(self.groups@))
    }

    /// Builds the report of a clustering pass. The number of duplicates is
    /// derived from the groups: all their members but one canonical member
    /// for each group.
    pub fn new(
        directory_path: String,
        groups: Vec<DuplicatesGroup>,
        duplicate_threshold: u32,
    ) -> (report: Self)
        requires
            countable(groups_view(groups@)),
        ensures
            report@.metadata.directory_path == directory_path@,
            report@.metadata.threshold == duplicate_threshold,
            report@.groups == groups_view(groups@),
            report@.total_duplicates == duplicate_count(groups_view(groups@)),
            groups_partition(groups_view(groups@)) ==> report.well_formed(),
    {
        let metadata = DeduplicationMetadata { directory_path, threshold: duplicate_threshold };
        let total_duplicates = match count_duplicates(&groups) {
            Some(count) => count,
            None => unreached(),
        };
        DeduplicationReport { metadata, groups, total_duplicates }
    }

    /// The human-readable summary: source directory, threshold, number of
    /// groups and number of duplicates, one per line under a heading.
    pub fn render(&self) -> (text: String)
        ensures
            text@ == summary_text(self@),
    {
        let mut text = String::from_str("Deduplication Report:\n");
        text.append("Directory path: ");
        text.append(self.metadata.directory_path.as_str());
        text.append("\n");
        text.append("Similarity threshold: ");
        text.append(decimal_string(self.metadata.threshold as u64).as_str());
        text.append("\n");
        text.append("Number of duplicate groups: ");
        text.append(decimal_string(self.groups.len() as u64).as_str());
        text.append("\n");
        text.append("Total number of duplicates: ");
        text.append(decimal_string(self.total_duplicates as u64).as_str());
        text.append("\n");
        text
    }
}

} // verus!
