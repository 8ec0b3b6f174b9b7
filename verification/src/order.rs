//! Ordering records by path: what it means for a sequence of records to be
//! sorted, the stable sort that the directory reader applies, and the
//! insertion that keeps a vector sorted.

use crate::entry::DirEntry;
use crate::entry::DirEntryView;
use crate::path::lemma_lex_le_total;
use crate::path::lemma_lex_le_transitive;
use crate::path::lex_le;
use crate::path::path_le;
use vstd::prelude::*;

verus! {

/// The paths of `entries` never go down from one entry to a later one.
pub open spec fn sorted_by_path(entries: Seq<DirEntryView>) -> bool {
    forall|i: int, j: int|
        0 <= i < j < entries.len() ==> lex_le(
            (#[trigger] entries[i]).path,
            (#[trigger] entries[j]).path,
        )
}

/// `entries` with `entry` put in behind the last record whose path does not
/// come after that of `entry`, as seen from the end.
pub open spec fn insert_by_path(entries: Seq<DirEntryView>, entry: DirEntryView) -> Seq<
    DirEntryView,
>
    decreases entries.len(),
{
    if entries.len() > 0 && !lex_le(entries.last().path, entry.path) {
        insert_by_path(entries.drop_last(), entry).push(entries.last())
    } else {
        entries.push(entry)
    }
}

/// `entries` sorted by path. Records with the same path keep the order in
/// which `entries` holds them.
pub open spec fn sort_by_path(entries: Seq<DirEntryView>) -> Seq<DirEntryView>
    decreases entries.len(),
{
    if entries.len() == 0 {
        Seq::empty()
    } else {
        insert_by_path(sort_by_path(entries.drop_last()), entries.last())
    }
}

/// Index `at` parts `entries` around `path`: no record before it has a path
/// that comes after `path`, every record from it on has one.
pub open spec fn parts_at(entries: Seq<DirEntryView>, path: Seq<u8>, at: int) -> bool {
    &&& 0 <= at <= entries.len()
    &&& forall|i: int| 0 <= i < at ==> lex_le((#[trigger] entries[i]).path, path)
    &&& forall|i: int| at <= i < entries.len() ==> !lex_le((#[trigger] entries[i]).path, path)
}

/// Where an index parts the records around the path of `entry`, inserting by
/// path puts `entry` at that index.
pub proof fn lemma_insert_by_path_at(entries: Seq<DirEntryView>, entry: DirEntryView, at: int)
    requires
        parts_at(entries, entry.path, at),
    ensures
        insert_by_path(entries, entry) == entries.insert(at, entry),
    decreases entries.len(),
{
    if entries.len() > 0 && !lex_le(entries.last().path, entry.path) {
        let front = entries.drop_last();
        assert(parts_at(front, entry.path, at));
        lemma_insert_by_path_at(front, entry, at);
    }
}

/// Inserting by path keeps a sorted sequence sorted, adds one record and
/// loses none.
pub proof fn lemma_insert_by_path(entries: Seq<DirEntryView>, entry: DirEntryView)
    requires
        sorted_by_path(entries),
    ensures
        sorted_by_path(insert_by_path(entries, entry)),
        insert_by_path(entries, entry).to_multiset() == entries.to_multiset().insert(entry),
        insert_by_path(entries, entry).len() == entries.len() + 1,
    decreases entries.len(),
{
    broadcast use vstd::seq_lib::group_to_multiset_ensures;

    let out = insert_by_path(entries, entry);
    if entries.len() > 0 && !lex_le(entries.last().path, entry.path) {
        let front = entries.drop_last();
        let last = entries.last();
        assert(sorted_by_path(front));
        lemma_insert_by_path(front, entry);
        let inner = insert_by_path(front, entry);
        lemma_lex_le_total(last.path, entry.path);
        // Every record of `inner` is `entry` or one of `front`, so none comes after `last`.
        assert forall|i: int| 0 <= i < inner.len() implies lex_le(
            (#[trigger] inner[i]).path,
            last.path,
        ) by {
            assert(inner.to_multiset().count(inner[i]) > 0);
        }
        assert(entries =~= front.push(last));
    } else {
        assert forall|i: int, j: int| 0 <= i < j < out.len() implies lex_le(
            (#[trigger] out[i]).path,
            (#[trigger] out[j]).path,
        ) by {
            if i < entries.len() - 1 && j == entries.len() {
                lemma_lex_le_transitive(
                    entries[i].path,
                    entries[entries.len() - 1].path,
                    entry.path,
                );
            }
        }
    }
}

/// The sort gives a sorted sequence that holds each record as often as the
/// sequence that was sorted.
pub proof fn lemma_sort_by_path(entries: Seq<DirEntryView>)
    ensures
        sorted_by_path(sort_by_path(entries)),
        sort_by_path(entries).to_multiset() == entries.to_multiset(),
        sort_by_path(entries).len() == entries.len(),
    decreases entries.len(),
{
    broadcast use vstd::seq_lib::group_to_multiset_ensures;

    if entries.len() > 0 {
        lemma_sort_by_path(entries.drop_last());
        lemma_insert_by_path(sort_by_path(entries.drop_last()), entries.last());
        assert(entries =~= entries.drop_last().push(entries.last()));
    }
}

/// Puts `entry` into the sorted vector `sorted`, behind the records whose
/// path does not come after its own.
pub(crate) fn insert_sorted(sorted: &mut Vec<DirEntry>, entry: DirEntry)
    requires
        sorted_by_path(old(sorted).deep_view()),
    ensures
        final(sorted).deep_view() == insert_by_path(old(sorted).deep_view(), entry@),
        sorted_by_path(final(sorted).deep_view()),
{
    let ghost before = sorted.deep_view();
    let mut low: usize = 0;
    let mut high: usize = sorted.len();
    while low < high
        invariant
            before == sorted.deep_view(),
            sorted_by_path(before),
            low <= high <= sorted.len(),
            forall|i: int| 0 <= i < low ==> lex_le((#[trigger] before[i]).path, entry@.path),
            forall|i: int|
                high <= i < before.len() ==> !lex_le((#[trigger] before[i]).path, entry@.path),
        decreases high - low,
    {
        let mid = low + (high - low) / 2;
        if path_le(&sorted[mid].path, &entry.path) {
            assert forall|i: int| 0 <= i < mid + 1 implies lex_le(
                (#[trigger] before[i]).path,
                entry@.path,
            ) by {
                if i < mid {
                    lemma_lex_le_transitive(before[i].path, before[mid as int].path, entry@.path);
                }
            }
            low = mid + 1;
        } else {
            assert forall|i: int| mid <= i < before.len() implies !lex_le(
                (#[trigger] before[i]).path,
                entry@.path,
            ) by {
                if mid < i && lex_le(before[i].path, entry@.path) {
                    lemma_lex_le_transitive(before[mid as int].path, before[i].path, entry@.path);
                }
            }
            high = mid;
        }
    }
    proof {
        lemma_insert_by_path_at(before, entry@, low as int);
        lemma_insert_by_path(before, entry@);
    }
    sorted.insert(low, entry);
}

} // verus!
