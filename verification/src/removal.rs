//! Rebuilding a directory without its duplicates from a report.
//!
//! The canonical member of every group is copied first, then every entry of
//! the source directory that is not a duplicate. The functions here decide
//! what is copied; listing the directory and copying are left to the caller.

use crate::deduplicate::{
    duplicate_group_indices, duplicate_groups, group_shaped, lemma_group_indices_shaped,
};
use crate::models::{is_member, member_paths_of, DeduplicationReport, ImageRecord};
use vstd::hash_set::StringHashSet;
use vstd::prelude::*;

verus! {

/// The values of a sequence of paths, in order.
pub open spec fn paths_view(paths: Seq<String>) -> Seq<Seq<char>> {
    Seq::new(paths.len(), |i: int| paths[i]@)
}

/// The path of the canonical member of every group that has a member, in the
/// order of the groups.
pub open spec fn canonical_paths_of(groups: Seq<Seq<ImageRecord>>) -> Seq<Seq<char>>
    decreases groups.len(),
{
    if groups.len() == 0 {
        Seq::empty()
    } else if groups.last().len() == 0 {
        canonical_paths_of(groups.drop_last())
    } else {
        canonical_paths_of(groups.drop_last()).push(groups.last()[0].path)
    }
}

/// Whether `path` is a duplicate: the path of a member of some group that is
/// not its canonical member.
pub open spec fn is_duplicate(groups: Seq<Seq<ImageRecord>>, path: Seq<char>) -> bool {
    exists|g: int, m: int|
        0 <= g < groups.len() && 1 <= m < groups[g].len() && (#[trigger] groups[g][m]).path == path
}

/// Whether `path` is the path of a member of the group after its first and
/// before index `upto`.
spec fn follows_canonical(members: Seq<ImageRecord>, upto: int, path: Seq<char>) -> bool {
    exists|k: int| 1 <= k < upto && k < members.len() && (#[trigger] members[k]).path == path
}

/// The paths that are left out of the rebuilt directory.
pub open spec fn duplicate_paths_of(groups: Seq<Seq<ImageRecord>>) -> Set<Seq<char>> {
    Set::new(|path: Seq<char>| is_duplicate(groups, path))
}

/// The entries that are not in `excluded`, in their order.
pub open spec fn entries_outside(entries: Seq<Seq<char>>, excluded: Set<Seq<char>>) -> Seq<
    Seq<char>,
>
    decreases entries.len(),
{
    if entries.len() == 0 {
        Seq::empty()
    } else if excluded.contains(entries.last()) {
        entries_outside(entries.drop_last(), excluded)
    } else {
        entries_outside(entries.drop_last(), excluded).push(entries.last())
    }
}

/// The files that are copied before the source directory is listed: the
/// canonical member of every group.
pub fn canonical_paths(report: &DeduplicationReport) -> (paths: Vec<String>)
    ensures
        paths_view(paths@) == canonical_paths_of(report@.groups),
{
    let ghost groups = report@.groups;
    let mut paths: Vec<String> = Vec::new();
    let mut g: usize = 0;
    while g < report.groups.len()
        invariant
            g <= report.groups.len(),
            groups == report@.groups,
            paths_view(paths@) == canonical_paths_of(groups.take(g as int)),
        decreases report.groups.len() - g,
    {
        let items = &report.groups[g].items;
        proof {
            assert(groups.take(g + 1).drop_last() =~= groups.take(g as int));
            assert(groups.take(g + 1).last() == groups[g as int]);
            assert(groups[g as int].len() == items@.len());
        }
        if items.len() > 0 {
            let ghost earlier = paths@;
            paths.push(items[0].path.clone());
            assert(paths_view(paths@) =~= paths_view(earlier).push(groups[g as int][0].path));
        }
        g += 1;
    }
    assert(groups.take(g as int) =~= groups);
    paths
}

/// The paths that are left out: every member of a group but its canonical
/// member.
pub fn duplicate_paths(report: &DeduplicationReport) -> (excluded: StringHashSet)
    ensures
        excluded@ == duplicate_paths_of(report@.groups),
{
    let ghost groups = report@.groups;
    let mut excluded = StringHashSet::new();
    let mut g: usize = 0;
    while g < report.groups.len()
        invariant
            g <= report.groups.len(),
            groups == report@.groups,
            excluded@ == duplicate_paths_of(groups.take(g as int)),
        decreases report.groups.len() - g,
    {
        let items = &report.groups[g].items;
        let ghost before = excluded@;
        let ghost members = groups[g as int];
        let mut m: usize = 1;
        while m < items.len()
            invariant
                1 <= m,
                g < report.groups.len(),
                groups == report@.groups,
                members == groups[g as int],
                members.len() == items@.len(),
                forall|k: int| 0 <= k < members.len() ==> members[k] == (#[trigger] items@[k])@,
                forall|path: Seq<char>|
                    #![trigger excluded@.contains(path)]
                    excluded@.contains(path) <==> before.contains(path) || follows_canonical(
                        members,
                        m as int,
                        path,
                    ),
            decreases items.len() - m,
        {
            let ghost marked = excluded@;
            excluded.insert(items[m].path.clone());
            proof {
                let added = members[m as int].path;
                assert forall|path: Seq<char>|
                    #![trigger excluded@.contains(path)]
                    excluded@.contains(path) <==> before.contains(path) || follows_canonical(
                        members,
                        m + 1,
                        path,
                    ) by {
                    assert(marked.contains(path) <==> before.contains(path) || follows_canonical(
                        members,
                        m as int,
                        path,
                    ));
                    assert(excluded@.contains(path) <==> marked.contains(path) || path == added);
                    if follows_canonical(members, m + 1, path) {
                        let k = choose|k: int|
                            1 <= k < m + 1 && k < members.len() && (#[trigger] members[k]).path
                                == path;
                        if k < m {
                            assert(follows_canonical(members, m as int, path));
                        }
                    }
                    if marked.contains(path) && !before.contains(path) {
                        let k = choose|k: int|
                            1 <= k < m && k < members.len() && (#[trigger] members[k]).path
                                == path;
                        assert(follows_canonical(members, m + 1, path));
                    }
                    if path == added {
                        assert(members[m as int].path == path);
                        assert(follows_canonical(members, m + 1, path));
                    }
                }
            }
            m += 1;
        }
        proof {
            let longer = groups.take(g + 1);
            let shorter = groups.take(g as int);
            assert forall|path: Seq<char>|
                excluded@.contains(path) == is_duplicate(longer, path) by {
                assert(excluded@.contains(path) <==> before.contains(path) || follows_canonical(
                    members,
                    m as int,
                    path,
                ));
                assert(before.contains(path) <==> is_duplicate(shorter, path));
                if is_duplicate(longer, path) {
                    let (h, k) = choose|h: int, k: int|
                        0 <= h < longer.len() && 1 <= k < longer[h].len() && (
                        #[trigger] longer[h][k]).path == path;
                    if h < g {
                        assert(shorter[h][k].path == path);
                        assert(is_duplicate(shorter, path));
                    } else {
                        assert(members[k].path == path);
                        assert(follows_canonical(members, m as int, path));
                    }
                }
                if excluded@.contains(path) {
                    if before.contains(path) {
                        assert(is_duplicate(shorter, path));
                        let (h, k) = choose|h: int, k: int|
                            0 <= h < shorter.len() && 1 <= k < shorter[h].len() && (
                            #[trigger] shorter[h][k]).path == path;
                        assert(longer[h][k].path == path);
                    } else {
                        assert(follows_canonical(members, m as int, path));
                        let k = choose|k: int|
                            1 <= k < m && k < members.len() && (#[trigger] members[k]).path
                                == path;
                        assert(longer[g as int][k].path == path);
                    }
                }
            }
            assert(excluded@ =~= duplicate_paths_of(longer));
        }
        g += 1;
    }
    assert(groups.take(g as int) =~= groups);
    excluded
}

/// The files that are copied after the source directory has been listed: the
/// entries of the listing that are not duplicates, in the order of the
/// listing.
pub fn retained_entries(report: &DeduplicationReport, entries: &Vec<String>) -> (kept: Vec<String>)
    ensures
        paths_view(kept@) == entries_outside(
            paths_view(entries@),
            duplicate_paths_of(report@.groups),
        ),
{
    let excluded = duplicate_paths(report);
    let ghost listing = paths_view(entries@);
    let mut kept: Vec<String> = Vec::new();
    let mut i: usize = 0;
    while i < entries.len()
        invariant
            i <= entries.len(),
            listing == paths_view(entries@),
            paths_view(kept@) == entries_outside(listing.take(i as int), excluded@),
        decreases entries.len() - i,
    {
        proof {
            assert(listing.take(i + 1).drop_last() =~= listing.take(i as int));
            assert(listing.take(i + 1).last() == entries@[i as int]@);
        }
        if !excluded.contains(entries[i].as_str()) {
            let ghost earlier = kept@;
            kept.push(entries[i].clone());
            assert(paths_view(kept@) =~= paths_view(earlier).push(entries@[i as int]@));
        }
        i += 1;
    }
    assert(listing.take(i as int) =~= listing);
    kept
}

/// Everything that is copied, in the order of copying: the canonical members
/// first, then the entries of the listing that are not duplicates.
pub open spec fn copies_of(entries: Seq<Seq<char>>, groups: Seq<Seq<ImageRecord>>) -> Seq<
    Seq<char>,
> {
    canonical_paths_of(groups) + entries_outside(entries, duplicate_paths_of(groups))
}

/// Plans the rebuilding of a directory from a report and the listing of the
/// source directory: the files to copy into the output directory, in order.
/// A file that is named twice is copied twice, onto itself.
pub fn run(results: &DeduplicationReport, entries: &Vec<String>) -> (copies: Vec<String>)
    ensures
        paths_view(copies@) == copies_of(paths_view(entries@), results@.groups),
{
    let mut copies = canonical_paths(results);
    let mut kept = retained_entries(results, entries);
    let ghost first = copies@;
    let ghost second = kept@;
    copies.append(&mut kept);
    assert(paths_view(copies@) =~= paths_view(first) + paths_view(second));
    copies
}

/// No path occurs at two places in the groups.
pub open spec fn paths_unique(groups: Seq<Seq<ImageRecord>>) -> bool {
    forall|g: int, m: int, h: int, k: int|
        0 <= g < groups.len() && 0 <= m < groups[g].len() && 0 <= h < groups.len() && 0 <= k
            < groups[h].len() && (g != h || m != k) ==> (#[trigger] groups[g][m]).path != (
        #[trigger] groups[h][k]).path
}

/// Whether `path` is the path of the first member of some group.
spec fn is_canonical(groups: Seq<Seq<ImageRecord>>, path: Seq<char>) -> bool {
    exists|g: int|
        0 <= g < groups.len() && groups[g].len() > 0 && (#[trigger] groups[g])[0].path == path
}

/// What is kept of a listing holds the entries outside the excluded set and
/// no others, and holds nothing twice if the listing does not.
proof fn lemma_entries_outside(entries: Seq<Seq<char>>, excluded: Set<Seq<char>>)
    ensures
        forall|path: Seq<char>| #[trigger]
            entries_outside(entries, excluded).contains(path) <==> entries.contains(path)
                && !excluded.contains(path),
        entries.no_duplicates() ==> entries_outside(entries, excluded).no_duplicates(),
    decreases entries.len(),
{
    let kept = entries_outside(entries, excluded);
    if entries.len() > 0 {
        let rest = entries.drop_last();
        let last = entries.last();
        let kept_rest = entries_outside(rest, excluded);
        lemma_entries_outside(rest, excluded);
        assert forall|path: Seq<char>| #[trigger]
            kept.contains(path) <==> entries.contains(path) && !excluded.contains(path) by {
            if kept.contains(path) {
                let i = choose|i: int| 0 <= i < kept.len() && kept[i] == path;
                if i < kept_rest.len() {
                    assert(kept_rest[i] == path);
                    assert(kept_rest.contains(path));
                    let j = choose|j: int| 0 <= j < rest.len() && rest[j] == path;
                    assert(entries[j] == path);
                } else {
                    assert(entries[entries.len() - 1] == path);
                }
            }
            if entries.contains(path) && !excluded.contains(path) {
                let j = choose|j: int| 0 <= j < entries.len() && entries[j] == path;
                if j < rest.len() {
                    assert(rest[j] == path);
                    assert(kept_rest.contains(path));
                    let i = choose|i: int| 0 <= i < kept_rest.len() && kept_rest[i] == path;
                    assert(kept[i] == path);
                } else {
                    assert(kept[kept.len() - 1] == path);
                }
            }
        }
        if entries.no_duplicates() {
            assert(rest.no_duplicates());
            if !excluded.contains(last) {
                assert forall|i: int, j: int|
                    0 <= i < kept.len() && 0 <= j < kept.len() && i != j implies kept[i]
                    != kept[j] by {
                    if i == kept.len() - 1 || j == kept.len() - 1 {
                        let other = if i == kept.len() - 1 {
                            j
                        } else {
                            i
                        };
                        assert(kept_rest[other] == kept[other]);
                        assert(kept_rest.contains(kept[other]));
                        let at = choose|at: int| 0 <= at < rest.len() && rest[at] == kept[other];
                        assert(entries[at] != entries[entries.len() - 1]);
                    } else {
                        assert(kept_rest[i] != kept_rest[j]);
                    }
                }
            }
        }
    }
}

/// Filtering what was kept once more keeps all of it: a directory rebuilt
/// from a rebuilt listing is the same again.
pub proof fn lemma_entries_outside_idempotent(entries: Seq<Seq<char>>, excluded: Set<Seq<char>>)
    ensures
        entries_outside(entries_outside(entries, excluded), excluded) == entries_outside(
            entries,
            excluded,
        ),
    decreases entries.len(),
{
    if entries.len() > 0 {
        let kept_rest = entries_outside(entries.drop_last(), excluded);
        lemma_entries_outside_idempotent(entries.drop_last(), excluded);
        if !excluded.contains(entries.last()) {
            assert(kept_rest.push(entries.last()).drop_last() =~= kept_rest);
        }
    }
}

/// The canonical paths are the paths of the first members. Where every group
/// has a member there is one for each group, and where no path occurs twice
/// in the groups none occurs twice among them.
proof fn lemma_canonical_paths(groups: Seq<Seq<ImageRecord>>)
    ensures
        forall|path: Seq<char>| #[trigger]
            canonical_paths_of(groups).contains(path) <==> is_canonical(groups, path),
        (forall|g: int| 0 <= g < groups.len() ==> (#[trigger] groups[g]).len() >= 1)
            ==> canonical_paths_of(groups).len() == groups.len(),
        paths_unique(groups) ==> canonical_paths_of(groups).no_duplicates(),
    decreases groups.len(),
{
    let firsts = canonical_paths_of(groups);
    if groups.len() > 0 {
        let rest = groups.drop_last();
        let last = groups.last();
        let h = groups.len() - 1;
        let firsts_rest = canonical_paths_of(rest);
        lemma_canonical_paths(rest);
        assert forall|path: Seq<char>| #[trigger]
            firsts.contains(path) <==> is_canonical(groups, path) by {
            if firsts.contains(path) {
                let i = choose|i: int| 0 <= i < firsts.len() && firsts[i] == path;
                if i < firsts_rest.len() {
                    assert(firsts_rest[i] == path);
                    assert(firsts_rest.contains(path));
                    let g = choose|g: int|
                        0 <= g < rest.len() && rest[g].len() > 0 && (#[trigger] rest[g])[0].path
                            == path;
                    assert(groups[g][0].path == path);
                } else {
                    assert(groups[h][0].path == path);
                }
            }
            if is_canonical(groups, path) {
                let g = choose|g: int|
                    0 <= g < groups.len() && groups[g].len() > 0 && (#[trigger] groups[g])[0].path
                        == path;
                if g < h {
                    assert(rest[g][0].path == path);
                    assert(is_canonical(rest, path));
                    assert(firsts_rest.contains(path));
                    let i = choose|i: int| 0 <= i < firsts_rest.len() && firsts_rest[i] == path;
                    assert(firsts[i] == path);
                } else {
                    assert(firsts[firsts.len() - 1] == path);
                }
            }
        }
        if forall|g: int| 0 <= g < groups.len() ==> (#[trigger] groups[g]).len() >= 1 {
            assert forall|g: int| 0 <= g < rest.len() implies (#[trigger] rest[g]).len() >= 1 by {
                assert(rest[g] == groups[g]);
            }
            assert(groups[h].len() >= 1);
        }
        if paths_unique(groups) {
            assert(paths_unique(rest)) by {
                assert forall|g: int, m: int, k: int, n: int|
                    0 <= g < rest.len() && 0 <= m < rest[g].len() && 0 <= k < rest.len() && 0 <= n
                        < rest[k].len() && (g != k || m != n) implies (#[trigger] rest[g][m]).path
                    != (#[trigger] rest[k][n]).path by {
                    assert(groups[g][m].path != groups[k][n].path);
                }
            }
            if last.len() > 0 {
                assert forall|i: int, j: int|
                    0 <= i < firsts.len() && 0 <= j < firsts.len() && i != j implies firsts[i]
                    != firsts[j] by {
                    if i == firsts.len() - 1 || j == firsts.len() - 1 {
                        let other = if i == firsts.len() - 1 {
                            j
                        } else {
                            i
                        };
                        assert(firsts_rest[other] == firsts[other]);
                        assert(firsts_rest.contains(firsts[other]));
                        let g = choose|g: int|
                            0 <= g < rest.len() && rest[g].len() > 0 && (
                            #[trigger] rest[g])[0].path == firsts[other];
                        assert(groups[g][0].path != groups[h][0].path);
                    } else {
                        assert(firsts_rest[i] != firsts_rest[j]);
                    }
                }
            }
        }
    }
}

/// An entry is kept if it is in no group or is the canonical member of one:
/// what is kept has as many entries as what is in no group and what is
/// canonical together.
proof fn lemma_kept_splits(
    entries: Seq<Seq<char>>,
    duplicates: Set<Seq<char>>,
    members: Set<Seq<char>>,
    others: Set<Seq<char>>,
)
    requires
        forall|path: Seq<char>| duplicates.contains(path) ==> members.contains(path),
        forall|path: Seq<char>|
            others.contains(path) <==> !members.contains(path) || duplicates.contains(path),
    ensures
        entries_outside(entries, duplicates).len() == entries_outside(entries, members).len()
            + entries_outside(entries, others).len(),
    decreases entries.len(),
{
    if entries.len() > 0 {
        lemma_kept_splits(entries.drop_last(), duplicates, members, others);
    }
}

/// The count of a rebuilt directory. Take a listing that names no entry
/// twice, and groups that have a member each, hold no path twice and hold
/// only paths of the listing. Then the entries that are kept are as many as
/// there are groups and entries in no group together; the canonical members,
/// which are copied first, are among the entries that are kept; and so the
/// files that are copied, each counted once, are as many again.
pub proof fn lemma_reconstruction_count(entries: Seq<Seq<char>>, groups: Seq<Seq<ImageRecord>>)
    requires
        entries.no_duplicates(),
        forall|g: int| 0 <= g < groups.len() ==> (#[trigger] groups[g]).len() >= 1,
        paths_unique(groups),
        forall|g: int, m: int|
            0 <= g < groups.len() && 0 <= m < groups[g].len() ==> entries.contains(
                (#[trigger] groups[g][m]).path,
            ),
    ensures
        entries_outside(entries, duplicate_paths_of(groups)).len() == groups.len()
            + entries_outside(entries, member_paths_of(groups)).len(),
        entries_outside(entries, duplicate_paths_of(groups)).no_duplicates(),
        forall|path: Seq<char>|
            canonical_paths_of(groups).contains(path) ==> entries_outside(
                entries,
                duplicate_paths_of(groups),
            ).contains(path),
        copies_of(entries, groups).to_set().len() == groups.len() + entries_outside(
            entries,
            member_paths_of(groups),
        ).len(),
{
    let duplicates = duplicate_paths_of(groups);
    let members = member_paths_of(groups);
    let others = Set::new(|path: Seq<char>| !is_canonical(groups, path));
    let firsts = canonical_paths_of(groups);
    let kept = entries_outside(entries, duplicates);
    let listed_firsts = entries_outside(entries, others);
    assert forall|path: Seq<char>| duplicates.contains(path) implies members.contains(path) by {
        let (g, m) = choose|g: int, m: int|
            0 <= g < groups.len() && 1 <= m < groups[g].len() && (#[trigger] groups[g][m]).path
                == path;
        assert(groups[g][m].path == path);
    }
    assert forall|path: Seq<char>|
        others.contains(path) <==> !members.contains(path) || duplicates.contains(path) by {
        if is_canonical(groups, path) {
            let g = choose|g: int|
                0 <= g < groups.len() && groups[g].len() > 0 && (#[trigger] groups[g])[0].path
                    == path;
            assert(groups[g][0].path == path);
            assert(is_member(groups, path));
            if is_duplicate(groups, path) {
                let (h, k) = choose|h: int, k: int|
                    0 <= h < groups.len() && 1 <= k < groups[h].len() && (
                    #[trigger] groups[h][k]).path == path;
                assert(groups[g][0].path != groups[h][k].path);
            }
        } else if is_member(groups, path) {
            let (g, m) = choose|g: int, m: int|
                0 <= g < groups.len() && 0 <= m < groups[g].len() && (#[trigger] groups[g][m]).path
                    == path;
            if m == 0 {
                assert(groups[g][0].path == path);
                assert(is_canonical(groups, path));
            } else {
                assert(groups[g][m].path == path);
                assert(is_duplicate(groups, path));
            }
        }
    }
    lemma_kept_splits(entries, duplicates, members, others);
    lemma_entries_outside(entries, duplicates);
    lemma_entries_outside(entries, others);
    lemma_canonical_paths(groups);
    assert forall|path: Seq<char>| firsts.contains(path) implies listed_firsts.contains(path)
        && kept.contains(path) by {
        let g = choose|g: int|
            0 <= g < groups.len() && groups[g].len() > 0 && (#[trigger] groups[g])[0].path == path;
        assert(entries.contains(groups[g][0].path));
        assert(!others.contains(path));
        assert(!duplicates.contains(path));
    }
    assert(listed_firsts.to_set() =~= firsts.to_set()) by {
        assert forall|path: Seq<char>| listed_firsts.contains(path) implies firsts.contains(
            path,
        ) by {
            assert(!others.contains(path));
        }
    }
    listed_firsts.unique_seq_to_set();
    firsts.unique_seq_to_set();
    assert(copies_of(entries, groups).to_set() =~= kept.to_set()) by {
        let copies = copies_of(entries, groups);
        assert forall|path: Seq<char>| copies.contains(path) implies kept.contains(path) by {
            let i = choose|i: int| 0 <= i < copies.len() && copies[i] == path;
            if i < firsts.len() {
                assert(firsts[i] == path);
                assert(firsts.contains(path));
            } else {
                assert(kept[i - firsts.len()] == path);
            }
        }
        assert forall|path: Seq<char>| kept.contains(path) implies copies.contains(path) by {
            let i = choose|i: int| 0 <= i < kept.len() && kept[i] == path;
            assert(copies[firsts.len() + i] == path);
        }
    }
    kept.unique_seq_to_set();
}

/// No two records of the catalog have the same path.
pub open spec fn paths_distinct(records: Seq<ImageRecord>) -> bool {
    forall|i: int, j: int|
        0 <= i < j < records.len() ==> (#[trigger] records[i]).path != (#[trigger] records[j]).path
}

/// The count of a directory rebuilt from the groups of its own catalog.
/// Take a listing that names no entry twice and a catalog of entries of
/// that listing, each at most once. Then the entries that are kept, and the
/// files that are copied, each counted once, are as many as there are
/// duplicate groups and entries in no group together.
pub proof fn lemma_rebuilt_directory_count(
    entries: Seq<Seq<char>>,
    records: Seq<ImageRecord>,
    threshold: u32,
)
    requires
        entries.no_duplicates(),
        paths_distinct(records),
        forall|i: int| 0 <= i < records.len() ==> entries.contains((#[trigger] records[i]).path),
    ensures
        ({
            let groups = duplicate_groups(records, threshold);
            &&& entries_outside(entries, duplicate_paths_of(groups)).len() == groups.len()
                + entries_outside(entries, member_paths_of(groups)).len()
            &&& copies_of(entries, groups).to_set().len() == groups.len() + entries_outside(
                entries,
                member_paths_of(groups),
            ).len()
        }),
{
    let indices = duplicate_group_indices(records, threshold);
    let groups = duplicate_groups(records, threshold);
    lemma_group_indices_shaped(records, threshold);
    assert forall|g: int| 0 <= g < groups.len() implies (#[trigger] groups[g]).len() >= 1 by {
        assert(group_shaped(records, threshold, indices[g]));
    }
    assert forall|g: int, m: int|
        0 <= g < groups.len() && 0 <= m < groups[g].len() implies entries.contains(
        (#[trigger] groups[g][m]).path,
    ) by {
        assert(group_shaped(records, threshold, indices[g]));
        assert(groups[g][m] == records[indices[g][m]]);
    }
    assert forall|g: int, m: int, h: int, k: int|
        0 <= g < groups.len() && 0 <= m < groups[g].len() && 0 <= h < groups.len() && 0 <= k
            < groups[h].len() && (g != h || m != k) implies (#[trigger] groups[g][m]).path != (
    #[trigger] groups[h][k]).path by {
        assert(group_shaped(records, threshold, indices[g]));
        assert(group_shaped(records, threshold, indices[h]));
        if g < h {
            assert(records[indices[g][m]].path != records[indices[h][k]].path);
        } else if h < g {
            assert(records[indices[h][k]].path != records[indices[g][m]].path);
        } else if m < k {
            assert(indices[g][m] < indices[g][k]);
            assert(records[indices[g][m]].path != records[indices[g][k]].path);
        } else {
            assert(indices[g][k] < indices[g][m]);
            assert(records[indices[g][k]].path != records[indices[g][m]].path);
        }
    }
    lemma_reconstruction_count(entries, groups);
}

} // verus!
