//! Clustering of cataloged images into groups of near-duplicates.
//!
//! The clustering is greedy and depends on the order of the catalog: every
//! record that has not yet joined a group is tried as the seed of a new one,
//! and collects the later records that lie close enough to it. Membership is
//! decided against the seed alone, so two members of a group need not lie
//! close to one another.

use crate::hashing::{distance, hamming_distance};
use crate::models::{
    duplicate_count, groups_partition, groups_view, is_member, member_count, records_view,
    records_well_formed, DeduplicationReport, DuplicatesGroup, ImageInfo, ImageRecord,
};
use vstd::hash_set::StringHashSet;
use vstd::prelude::*;
use vstd::seq_lib::seq_to_set_is_finite;
use vstd::set_lib::{lemma_int_range, lemma_len_subset, lemma_set_disjoint_lens, set_int_range};

verus! {

/// The threshold that is used where none is given.
pub const DUPLICATE_THRESHOLD: u32 = 10;

/// The width and height, in bits, of the hashes that are computed where no
/// size is given.
pub const HASH_SIZE: u32 = 16;

/// The name under which the report is saved where none is given.
pub const REPORT_FILE_NAME: &'static str = "dedup_report.json";

/// Whether `other` lies close enough to `seed` to join its group: the distance
/// has to be strictly below the threshold.
pub open spec fn within_threshold(seed: ImageRecord, other: ImageRecord, threshold: u32) -> bool {
    hamming_distance(seed.hash, other.hash) < threshold
}

/// The candidate group of the record at index `seed` after the records before
/// index `upto` have been looked at, together with the paths marked as
/// processed by then. The group is a list of indices into `records` that
/// starts with the seed; a later record joins, and its path is marked, if its
/// path is not yet marked and it lies within the threshold of the seed.
pub open spec fn scan_members(
    records: Seq<ImageRecord>,
    threshold: u32,
    seed: int,
    processed: Set<Seq<char>>,
    upto: int,
) -> (Seq<int>, Set<Seq<char>>)
    decreases upto - seed,
{
    if upto <= seed + 1 {
        (seq![seed], processed)
    } else {
        let (members, marked) = scan_members(records, threshold, seed, processed, upto - 1);
        let other = upto - 1;
        if !marked.contains(records[other].path) && within_threshold(
            records[seed],
            records[other],
            threshold,
        ) {
            (members.push(other), marked.insert(records[other].path))
        } else {
            (members, marked)
        }
    }
}

/// The groups emitted, as lists of indices into `records`, and the paths
/// marked as processed, once the first `visited` records have had their turn
/// as a seed. A record whose path is marked is passed over. A candidate group
/// with a second member is emitted and the path of its seed is marked; a
/// candidate of the seed alone is dropped and leaves no mark.
pub open spec fn grouping(records: Seq<ImageRecord>, threshold: u32, visited: int) -> (
    Seq<Seq<int>>,
    Set<Seq<char>>,
)
    decreases visited,
{
    if visited <= 0 {
        (Seq::empty(), Set::empty())
    } else {
        let (groups, processed) = grouping(records, threshold, visited - 1);
        let seed = visited - 1;
        if processed.contains(records[seed].path) {
            (groups, processed)
        } else {
            let (members, marked) = scan_members(
                records,
                threshold,
                seed,
                processed,
                records.len() as int,
            );
            if members.len() > 1 {
                (groups.push(members), marked.insert(records[seed].path))
            } else {
                (groups, processed)
            }
        }
    }
}

/// The records that a list of indices stands for.
pub open spec fn members_at(records: Seq<ImageRecord>, indices: Seq<int>) -> Seq<ImageRecord> {
    Seq::new(indices.len(), |m: int| records[indices[m]])
}

/// The groups of records that lists of indices stand for.
pub open spec fn groups_at(records: Seq<ImageRecord>, groups: Seq<Seq<int>>) -> Seq<
    Seq<ImageRecord>,
> {
    Seq::new(groups.len(), |g: int| members_at(records, groups[g]))
}

/// The duplicate groups of a catalog, as lists of indices into it.
pub open spec fn duplicate_group_indices(records: Seq<ImageRecord>, threshold: u32) -> Seq<
    Seq<int>,
> {
    grouping(records, threshold, records.len() as int).0
}

/// The duplicate groups of a catalog.
pub open spec fn duplicate_groups(records: Seq<ImageRecord>, threshold: u32) -> Seq<
    Seq<ImageRecord>,
> {
    groups_at(records, duplicate_group_indices(records, threshold))
}

/// Groups the catalog into sets of near-duplicates.
pub fn find_duplicates(images: Vec<ImageInfo>, duplicate_threshold: u32) -> (groups: Vec<
    DuplicatesGroup,
>)
    requires
        records_well_formed(images@),
    ensures
        groups_view(groups@) == duplicate_groups(records_view(images@), duplicate_threshold),
        groups_partition(groups_view(groups@)),
{
    proof {
        lemma_groups_partition(records_view(images@), duplicate_threshold);
    }
    let mut groups: Vec<DuplicatesGroup> = Vec::new();
    let mut processed = StringHashSet::new();
    let ghost records = records_view(images@);
    let ghost mut emitted: Seq<Seq<int>> = Seq::empty();
    let mut i: usize = 0;
    while i < images.len()
        invariant
            i <= images.len(),
            records == records_view(images@),
            records_well_formed(images@),
            (emitted, processed@) == grouping(records, duplicate_threshold, i as int),
            groups.len() == emitted.len(),
            groups_view(groups@) == groups_at(records, emitted),
        decreases images.len() - i,
    {
        if !processed.contains(images[i].path.as_str()) {
            let mut current_group: Vec<ImageInfo> = Vec::new();
            current_group.push(images[i].clone());
            let ghost before = processed@;
            let ghost mut members: Seq<int> = seq![i as int];
            assert(records_view(current_group@) =~= members_at(records, members));
            let mut j: usize = i + 1;
            while j < images.len()
                invariant
                    i < j <= images.len(),
                    records == records_view(images@),
                    records_well_formed(images@),
                    (members, processed@) == scan_members(
                        records,
                        duplicate_threshold,
                        i as int,
                        before,
                        j as int,
                    ),
                    members.len() == 1 ==> processed@ == before,
                    1 <= members.len() == current_group.len(),
                    records_view(current_group@) == members_at(records, members),
                decreases images.len() - j,
            {
                if !processed.contains(images[j].path.as_str()) {
                    if distance(&images[i].hash, &images[j].hash) < duplicate_threshold {
                        let ghost earlier_group = current_group@;
                        let ghost earlier_members = members;
                        current_group.push(images[j].clone());
                        processed.insert(images[j].path.clone());
                        proof {
                            members = members.push(j as int);
                            assert forall|m: int| 0 <= m < members.len() implies records_view(
                                current_group@,
                            )[m] == members_at(records, members)[m] by {
                                if m < earlier_members.len() {
                                    assert(records_view(earlier_group)[m] == members_at(
                                        records,
                                        earlier_members,
                                    )[m]);
                                }
                            }
                            assert(records_view(current_group@) =~= members_at(records, members));
                        }
                    }
                }
                j += 1;
            }
            if current_group.len() > 1 {
                let ghost earlier_groups = groups@;
                let ghost earlier_emitted = emitted;
                groups.push(DuplicatesGroup { items: current_group });
                processed.insert(images[i].path.clone());
                proof {
                    emitted = emitted.push(members);
                    assert forall|g: int| 0 <= g < emitted.len() implies groups_view(groups@)[g]
                        == groups_at(records, emitted)[g] by {
                        if g < earlier_emitted.len() {
                            assert(groups_view(earlier_groups)[g] == groups_at(
                                records,
                                earlier_emitted,
                            )[g]);
                        }
                    }
                    assert(groups_view(groups@) =~= groups_at(records, emitted));
                }
            }
        }
        i += 1;
    }
    groups
}

/// What holds of every candidate group: it starts with its seed, its indices
/// rise, every later member lay within the threshold of the seed and had an
/// unmarked path when it joined, and the marks grew by the paths of the later
/// members and by nothing else.
proof fn lemma_scan_members(
    records: Seq<ImageRecord>,
    threshold: u32,
    seed: int,
    processed: Set<Seq<char>>,
    upto: int,
)
    requires
        0 <= seed < records.len(),
        upto <= records.len(),
    ensures
        ({
            let (members, marked) = scan_members(records, threshold, seed, processed, upto);
            &&& members.len() >= 1
            &&& members[0] == seed
            &&& forall|m: int| 1 <= m < members.len() ==> seed < #[trigger] members[m] < upto
            &&& forall|m: int, k: int|
                0 <= m < k < members.len() ==> #[trigger] members[m] < #[trigger] members[k]
            &&& forall|m: int|
                1 <= m < members.len() ==> {
                    &&& !processed.contains(records[#[trigger] members[m]].path)
                    &&& marked.contains(records[members[m]].path)
                    &&& within_threshold(records[seed], records[members[m]], threshold)
                }
            &&& forall|path: Seq<char>| processed.contains(path) ==> marked.contains(path)
            &&& forall|path: Seq<char>|
                marked.contains(path) ==> processed.contains(path) || exists|m: int|
                    1 <= m < members.len() && records[#[trigger] members[m]].path == path
            &&& forall|other: int|
                seed < other < upto ==> marked.contains((#[trigger] records[other]).path)
                    || !within_threshold(records[seed], records[other], threshold)
            &&& members.len() == 1 ==> marked == processed
        }),
    decreases upto - seed,
{
    if upto > seed + 1 {
        lemma_scan_members(records, threshold, seed, processed, upto - 1);
        let (earlier, marked_earlier) = scan_members(
            records,
            threshold,
            seed,
            processed,
            upto - 1,
        );
        let (members, marked) = scan_members(records, threshold, seed, processed, upto);
        assert forall|path: Seq<char>| marked.contains(path) implies processed.contains(path)
            || exists|m: int|
            1 <= m < members.len() && records[#[trigger] members[m]].path == path by {
            if marked_earlier.contains(path) {
                if !processed.contains(path) {
                    let m = choose|m: int|
                        1 <= m < earlier.len() && records[#[trigger] earlier[m]].path == path;
                    assert(records[members[m]].path == path);
                }
            } else {
                assert(records[members[members.len() - 1]].path == path);
            }
        }
    }
}

/// A well-shaped group of indices: at least two of them, all inside the
/// catalog and rising, every later one within the threshold of the first.
pub open spec fn group_shaped(records: Seq<ImageRecord>, threshold: u32, group: Seq<int>) -> bool {
    &&& group.len() >= 2
    &&& forall|m: int| 0 <= m < group.len() ==> 0 <= #[trigger] group[m] < records.len()
    &&& forall|m: int, k: int|
        0 <= m < k < group.len() ==> #[trigger] group[m] < #[trigger] group[k]
    &&& forall|m: int|
        1 <= m < group.len() ==> within_threshold(
            records[group[0]],
            records[#[trigger] group[m]],
            threshold,
        )
}

/// No record of one group shares its path with a record of another.
pub open spec fn paths_apart(records: Seq<ImageRecord>, groups: Seq<Seq<int>>) -> bool {
    forall|g: int, h: int, m: int, k: int|
        0 <= g < h < groups.len() && 0 <= m < groups[g].len() && 0 <= k < groups[h].len()
            ==> records[#[trigger] groups[g][m]].path != records[#[trigger] groups[h][k]].path
}

/// Whether `path` is the path of a record that some group holds.
pub open spec fn path_grouped(
    records: Seq<ImageRecord>,
    groups: Seq<Seq<int>>,
    path: Seq<char>,
) -> bool {
    exists|g: int, m: int|
        0 <= g < groups.len() && 0 <= m < groups[g].len() && records[
        #[trigger] groups[g][m]].path == path
}

/// The groups come in the order of their seeds.
pub open spec fn seeds_rise(groups: Seq<Seq<int>>) -> bool {
    forall|g: int, h: int|
        0 <= g < h < groups.len() ==> (#[trigger] groups[g])[0] < (#[trigger] groups[h])[0]
}

/// What holds after any number of seeds: every emitted group is well shaped
/// and starts with a seed that has had its turn, the groups come in the order
/// of their seeds, the path of every grouped record is marked, and groups
/// share no path.
proof fn lemma_grouping(records: Seq<ImageRecord>, threshold: u32, visited: int)
    requires
        0 <= visited <= records.len(),
    ensures
        ({
            let (groups, processed) = grouping(records, threshold, visited);
            &&& forall|g: int|
                0 <= g < groups.len() ==> group_shaped(records, threshold, #[trigger] groups[g])
            &&& forall|g: int| 0 <= g < groups.len() ==> (#[trigger] groups[g])[0] < visited
            &&& seeds_rise(groups)
            &&& forall|g: int, m: int|
                0 <= g < groups.len() && 0 <= m < groups[g].len() ==> processed.contains(
                    records[#[trigger] groups[g][m]].path,
                )
            &&& paths_apart(records, groups)
            &&& forall|path: Seq<char>|
                processed.contains(path) ==> path_grouped(records, groups, path)
            &&& forall|first: int, second: int|
                0 <= first < visited && first < second < records.len() ==> {
                    ||| processed.contains((#[trigger] records[first]).path)
                    ||| processed.contains((#[trigger] records[second]).path)
                    ||| !within_threshold(records[first], records[second], threshold)
                }
        }),
    decreases visited,
{
    if visited > 0 {
        lemma_grouping(records, threshold, visited - 1);
        let (earlier, processed) = grouping(records, threshold, visited - 1);
        let (later, all_processed) = grouping(records, threshold, visited);
        let seed = visited - 1;
        lemma_scan_members(records, threshold, seed, processed, records.len() as int);
        assert forall|path: Seq<char>| all_processed.contains(path) implies path_grouped(
            records,
            later,
            path,
        ) by {
            if processed.contains(path) {
                let (g, m) = choose|g: int, m: int|
                    0 <= g < earlier.len() && 0 <= m < earlier[g].len() && records[
                    #[trigger] earlier[g][m]].path == path;
                if later.len() > earlier.len() {
                    assert(later[g] == earlier[g]);
                }
                assert(records[later[g][m]].path == path);
            } else {
                let (members, marked) = scan_members(
                    records,
                    threshold,
                    seed,
                    processed,
                    records.len() as int,
                );
                let h = later.len() - 1;
                assert(later[h] == members);
                if marked.contains(path) {
                    let m = choose|m: int|
                        1 <= m < members.len() && records[#[trigger] members[m]].path == path;
                    assert(records[later[h][m]].path == path);
                } else {
                    assert(records[later[h][0]].path == path);
                }
            }
        }
        if !processed.contains(records[seed].path) {
            let (members, marked) = scan_members(
                records,
                threshold,
                seed,
                processed,
                records.len() as int,
            );
            if members.len() > 1 {
                let groups = earlier.push(members);
                let all_marked = marked.insert(records[seed].path);
                assert(group_shaped(records, threshold, members));
                assert forall|g: int| 0 <= g < groups.len() implies group_shaped(
                    records,
                    threshold,
                    #[trigger] groups[g],
                ) && groups[g][0] < visited by {
                    if g < earlier.len() {
                        assert(groups[g] == earlier[g]);
                    }
                }
                assert forall|g: int, h: int| 0 <= g < h < groups.len() implies (
                #[trigger] groups[g])[0] < (#[trigger] groups[h])[0] by {
                    assert(groups[g] == earlier[g]);
                    if h < earlier.len() {
                        assert(groups[h] == earlier[h]);
                    }
                }
                assert forall|g: int, m: int|
                    0 <= g < groups.len() && 0 <= m < groups[g].len() implies all_marked.contains(
                    records[#[trigger] groups[g][m]].path,
                ) by {
                    if g < earlier.len() {
                        assert(processed.contains(records[earlier[g][m]].path));
                    } else if m > 0 {
                        assert(marked.contains(records[members[m]].path));
                    }
                }
                assert forall|g: int, h: int, m: int, k: int|
                    0 <= g < h < groups.len() && 0 <= m < groups[g].len() && 0 <= k
                        < groups[h].len() implies records[#[trigger] groups[g][m]].path
                    != records[#[trigger] groups[h][k]].path by {
                    if h < earlier.len() {
                        assert(records[earlier[g][m]].path != records[earlier[h][k]].path);
                    } else {
                        assert(processed.contains(records[earlier[g][m]].path));
                        if k > 0 {
                            assert(!processed.contains(records[members[k]].path));
                        }
                    }
                }
            }
        }
    }
}

/// The indices that occur in some group.
pub open spec fn grouped_indices(groups: Seq<Seq<int>>) -> Set<int>
    decreases groups.len(),
{
    if groups.len() == 0 {
        Set::empty()
    } else {
        grouped_indices(groups.drop_last()).union(groups.last().to_set())
    }
}

/// Groups that are well shaped and share no path hold every index at most
/// once, so their members can be counted as a set of indices.
proof fn lemma_grouped_indices(records: Seq<ImageRecord>, threshold: u32, groups: Seq<Seq<int>>)
    requires
        forall|g: int|
            0 <= g < groups.len() ==> group_shaped(records, threshold, #[trigger] groups[g]),
        paths_apart(records, groups),
    ensures
        grouped_indices(groups).finite(),
        grouped_indices(groups).len() == member_count(groups_at(records, groups)),
        forall|x: int| #[trigger]
            grouped_indices(groups).contains(x) ==> 0 <= x < records.len() && exists|
                g: int,
                m: int,
            |
                0 <= g < groups.len() && 0 <= m < groups[g].len() && #[trigger] groups[g][m] == x,
    decreases groups.len(),
{
    if groups.len() > 0 {
        let rest = groups.drop_last();
        let last = groups.last();
        let h = groups.len() - 1;
        assert forall|g: int| 0 <= g < rest.len() implies group_shaped(
            records,
            threshold,
            #[trigger] rest[g],
        ) by {
            assert(rest[g] == groups[g]);
        }
        assert(paths_apart(records, rest)) by {
            assert forall|g: int, k: int, m: int, n: int|
                0 <= g < k < rest.len() && 0 <= m < rest[g].len() && 0 <= n
                    < rest[k].len() implies records[#[trigger] rest[g][m]].path
                != records[#[trigger] rest[k][n]].path by {
                assert(records[groups[g][m]].path != records[groups[k][n]].path);
            }
        }
        lemma_grouped_indices(records, threshold, rest);
        assert(group_shaped(records, threshold, groups[h]));
        assert(last.no_duplicates());
        last.unique_seq_to_set();
        seq_to_set_is_finite(last);
        assert(grouped_indices(rest).disjoint(last.to_set())) by {
            assert forall|x: int|
                grouped_indices(rest).contains(x) && last.to_set().contains(x) implies false by {
                let (g, m) = choose|g: int, m: int|
                    0 <= g < rest.len() && 0 <= m < rest[g].len() && #[trigger] rest[g][m] == x;
                let k = choose|k: int| 0 <= k < last.len() && last[k] == x;
                assert(records[groups[g][m]].path != records[groups[h][k]].path);
            }
        }
        lemma_set_disjoint_lens(grouped_indices(rest), last.to_set());
        assert(groups_at(records, groups).drop_last() =~= groups_at(records, rest));
        assert(groups_at(records, groups).last().len() == last.len());
        assert forall|x: int| #[trigger] grouped_indices(groups).contains(x) implies 0 <= x
            < records.len() && exists|g: int, m: int|
            0 <= g < groups.len() && 0 <= m < groups[g].len() && #[trigger] groups[g][m] == x by {
            if grouped_indices(rest).contains(x) {
                let (g, m) = choose|g: int, m: int|
                    0 <= g < rest.len() && 0 <= m < rest[g].len() && #[trigger] rest[g][m] == x;
                assert(groups[g][m] == x);
            } else {
                let k = choose|k: int| 0 <= k < last.len() && last[k] == x;
                assert(groups[h][k] == x);
            }
        }
    }
}

/// A sequence of groups with a member each has at least as many members as
/// groups.
pub proof fn lemma_member_count_at_least_groups(groups: Seq<Seq<ImageRecord>>)
    requires
        forall|g: int| 0 <= g < groups.len() ==> (#[trigger] groups[g]).len() >= 1,
    ensures
        groups.len() <= member_count(groups),
    decreases groups.len(),
{
    if groups.len() > 0 {
        let rest = groups.drop_last();
        assert forall|g: int| 0 <= g < rest.len() implies (#[trigger] rest[g]).len() >= 1 by {
            assert(rest[g] == groups[g]);
        }
        lemma_member_count_at_least_groups(rest);
        assert(groups.last() == groups[groups.len() - 1]);
    }
}

/// The groups of a catalog are well shaped, come in the order of their
/// seeds and share no path.
pub proof fn lemma_group_indices_shaped(records: Seq<ImageRecord>, threshold: u32)
    ensures
        forall|g: int|
            0 <= g < duplicate_group_indices(records, threshold).len() ==> group_shaped(
                records,
                threshold,
                #[trigger] duplicate_group_indices(records, threshold)[g],
            ),
        seeds_rise(duplicate_group_indices(records, threshold)),
        paths_apart(records, duplicate_group_indices(records, threshold)),
{
    lemma_grouping(records, threshold, records.len() as int);
}

/// Every emitted group has at least two members.
pub proof fn lemma_groups_have_two_members(records: Seq<ImageRecord>, threshold: u32)
    ensures
        forall|g: int|
            0 <= g < duplicate_groups(records, threshold).len() ==> (#[trigger] duplicate_groups(
                records,
                threshold,
            )[g]).len() >= 2,
{
    lemma_group_indices_shaped(records, threshold);
    let indices = duplicate_group_indices(records, threshold);
    assert forall|g: int| 0 <= g < duplicate_groups(records, threshold).len() implies (
    #[trigger] duplicate_groups(records, threshold)[g]).len() >= 2 by {
        assert(group_shaped(records, threshold, indices[g]));
    }
}

/// No path is a member of two groups.
pub proof fn lemma_groups_share_no_path(records: Seq<ImageRecord>, threshold: u32)
    ensures
        ({
            let groups = duplicate_groups(records, threshold);
            forall|g: int, h: int, m: int, k: int|
                0 <= g < groups.len() && 0 <= h < groups.len() && g != h && 0 <= m < groups[g].len()
                    && 0 <= k < groups[h].len() ==> (#[trigger] groups[g][m]).path != (
                #[trigger] groups[h][k]).path
        }),
{
    lemma_group_indices_shaped(records, threshold);
    let indices = duplicate_group_indices(records, threshold);
    let groups = duplicate_groups(records, threshold);
    assert forall|g: int, h: int, m: int, k: int|
        0 <= g < groups.len() && 0 <= h < groups.len() && g != h && 0 <= m < groups[g].len() && 0
            <= k < groups[h].len() implies (#[trigger] groups[g][m]).path != (
    #[trigger] groups[h][k]).path by {
        if g < h {
            assert(records[indices[g][m]].path != records[indices[h][k]].path);
        } else {
            assert(records[indices[h][k]].path != records[indices[g][m]].path);
        }
    }
}

/// The groups of a catalog part the images they hold.
pub proof fn lemma_groups_partition(records: Seq<ImageRecord>, threshold: u32)
    ensures
        groups_partition(duplicate_groups(records, threshold)),
{
    lemma_groups_have_two_members(records, threshold);
    lemma_groups_share_no_path(records, threshold);
}

/// Membership is decided by strict comparison: every member of a group after
/// its first lies at a distance from the first that is below the threshold,
/// never at the threshold itself.
pub proof fn lemma_members_below_threshold(records: Seq<ImageRecord>, threshold: u32)
    ensures
        ({
            let groups = duplicate_groups(records, threshold);
            forall|g: int, m: int|
                0 <= g < groups.len() && 1 <= m < groups[g].len() ==> hamming_distance(
                    groups[g][0].hash,
                    (#[trigger] groups[g][m]).hash,
                ) < threshold
        }),
{
    lemma_group_indices_shaped(records, threshold);
    let indices = duplicate_group_indices(records, threshold);
    let groups = duplicate_groups(records, threshold);
    assert forall|g: int, m: int|
        0 <= g < groups.len() && 1 <= m < groups[g].len() implies hamming_distance(
        groups[g][0].hash,
        (#[trigger] groups[g][m]).hash,
    ) < threshold by {
        assert(group_shaped(records, threshold, indices[g]));
        assert(within_threshold(records[indices[g][0]], records[indices[g][m]], threshold));
    }
}

/// Nothing is missed among the images that are left over: two records whose
/// paths are in no group lie at the threshold from one another, or beyond it.
pub proof fn lemma_ungrouped_pairs_are_distant(records: Seq<ImageRecord>, threshold: u32)
    ensures
        ({
            let groups = duplicate_groups(records, threshold);
            forall|first: int, second: int|
                0 <= first < second < records.len() && !is_member(
                    groups,
                    (#[trigger] records[first]).path,
                ) && !is_member(groups, (#[trigger] records[second]).path) ==> hamming_distance(
                    records[first].hash,
                    records[second].hash,
                ) >= threshold
        }),
{
    lemma_grouping(records, threshold, records.len() as int);
    let (indices, processed) = grouping(records, threshold, records.len() as int);
    let groups = duplicate_groups(records, threshold);
    assert forall|path: Seq<char>| processed.contains(path) implies is_member(groups, path) by {
        let (g, m) = choose|g: int, m: int|
            0 <= g < indices.len() && 0 <= m < indices[g].len() && records[
            #[trigger] indices[g][m]].path == path;
        assert(groups[g][m].path == path);
    }
    assert forall|first: int, second: int|
        0 <= first < second < records.len() && !is_member(
            groups,
            (#[trigger] records[first]).path,
        ) && !is_member(groups, (#[trigger] records[second]).path) implies hamming_distance(
        records[first].hash,
        records[second].hash,
    ) >= threshold by {
        assert(!processed.contains(records[first].path));
        assert(!processed.contains(records[second].path));
        assert(!within_threshold(records[first], records[second], threshold));
    }
}

/// Two images alone form a group exactly if their distance is below the
/// threshold; at the threshold or above it, nothing is emitted.
pub proof fn lemma_pair_grouping(a: ImageRecord, b: ImageRecord, threshold: u32)
    ensures
        duplicate_groups(seq![a, b], threshold) == if hamming_distance(a.hash, b.hash)
            < threshold {
            seq![seq![a, b]]
        } else {
            Seq::<Seq<ImageRecord>>::empty()
        },
{
    let records = seq![a, b];
    let none = Set::<Seq<char>>::empty();
    assert(grouping(records, threshold, 0) == (Seq::<Seq<int>>::empty(), none));
    assert(scan_members(records, threshold, 0, none, 1) == (seq![0int], none));
    assert(scan_members(records, threshold, 1, none, 2) == (seq![1int], none));
    if hamming_distance(a.hash, b.hash) < threshold {
        let pair = seq![0int].push(1);
        let marked = none.insert(b.path);
        assert(scan_members(records, threshold, 0, none, 2) == (pair, marked));
        let groups = Seq::<Seq<int>>::empty().push(pair);
        assert(grouping(records, threshold, 1) == (groups, marked.insert(a.path)));
        assert(grouping(records, threshold, 2) == (groups, marked.insert(a.path)));
        assert(members_at(records, pair) =~= seq![a, b]);
        assert(duplicate_groups(records, threshold) =~= seq![seq![a, b]]);
    } else {
        assert(scan_members(records, threshold, 0, none, 2) == (seq![0int], none));
        assert(grouping(records, threshold, 1) == (Seq::<Seq<int>>::empty(), none));
        assert(grouping(records, threshold, 2) == (Seq::<Seq<int>>::empty(), none));
        assert(duplicate_groups(records, threshold) =~= Seq::<Seq<ImageRecord>>::empty());
    }
}

/// The groups have no more members than the catalog has records, and no
/// more groups than members.
pub proof fn lemma_member_count_bounded(records: Seq<ImageRecord>, threshold: u32)
    ensures
        duplicate_groups(records, threshold).len() <= member_count(
            duplicate_groups(records, threshold),
        ) <= records.len(),
{
    lemma_group_indices_shaped(records, threshold);
    lemma_groups_have_two_members(records, threshold);
    lemma_member_count_at_least_groups(duplicate_groups(records, threshold));
    let indices = duplicate_group_indices(records, threshold);
    lemma_grouped_indices(records, threshold, indices);
    lemma_int_range(0, records.len() as int);
    assert(grouped_indices(indices).subset_of(set_int_range(0, records.len() as int)));
    lemma_len_subset(grouped_indices(indices), set_int_range(0, records.len() as int));
}

/// The outcome depends on nothing but the contents of the catalog, in
/// their order, and the threshold: catalogs with the same contents have the
/// same groups.
pub proof fn lemma_grouping_deterministic(
    first: Seq<ImageInfo>,
    second: Seq<ImageInfo>,
    threshold: u32,
)
    requires
        records_view(first) == records_view(second),
    ensures
        duplicate_groups(records_view(first), threshold) == duplicate_groups(
            records_view(second),
            threshold,
        ),
{
}

/// Clusters a catalog and builds the report of the pass.
pub fn run(directory: String, image_hashes: Vec<ImageInfo>, duplicate_threshold: u32) -> (report:
    DeduplicationReport)
    requires
        records_well_formed(image_hashes@),
    ensures
        report@.metadata.directory_path == directory@,
        report@.metadata.threshold == duplicate_threshold,
        report@.groups == duplicate_groups(records_view(image_hashes@), duplicate_threshold),
        report@.total_duplicates == duplicate_count(report@.groups),
        report.well_formed(),
{
    proof {
        lemma_member_count_bounded(records_view(image_hashes@), duplicate_threshold);
        assert(records_view(image_hashes@).len() == image_hashes.len());
    }
    let duplicates = find_duplicates(image_hashes, duplicate_threshold);
    assert(groups_view(duplicates@).len() == duplicates.len());
    DeduplicationReport::new(directory, duplicates, duplicate_threshold)
}

} // verus!
