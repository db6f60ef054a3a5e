//! Putting tree entries in the order of their names.

use vstd::prelude::*;
use crate::object::{
    entry_views, is_valid_name, sorted_by_name, Entry, EntryView, Object, ObjectView,
};
use crate::order::{
    lemma_name_le_total, lemma_name_le_transitive, name_at_most, name_le,
};

verus! {

/// `sorted` with `entry` put behind the last entry that does not come after it.
pub open spec fn insert_by_name(sorted: Seq<EntryView>, entry: EntryView) -> Seq<EntryView>
    decreases sorted.len(),
{
    if sorted.len() == 0 || name_le(sorted.last().name, entry.name) {
        sorted.push(entry)
    } else {
        insert_by_name(sorted.drop_last(), entry).push(sorted.last())
    }
}

/// The entries in ascending order of their names. Entries of the same name
/// keep the order in which they came.
pub open spec fn sort_by_name(entries: Seq<EntryView>) -> Seq<EntryView>
    decreases entries.len(),
{
    if entries.len() == 0 {
        entries
    } else {
        insert_by_name(sort_by_name(entries.drop_last()), entries.last())
    }
}

/// Where everything from `at` on comes after `entry` and what stands before
/// `at` does not, `insert_by_name` puts `entry` at `at`.
pub proof fn lemma_insert_position(sorted: Seq<EntryView>, entry: EntryView, at: int)
    requires
        0 <= at <= sorted.len(),
        forall|k: int| at <= k < sorted.len() ==> !name_le((#[trigger] sorted[k]).name, entry.name),
        at > 0 ==> name_le(sorted[at - 1].name, entry.name),
    ensures
        insert_by_name(sorted, entry) == sorted.insert(at, entry),
    decreases sorted.len() - at,
{
    if at == sorted.len() {
        assert(sorted.push(entry) =~= sorted.insert(at, entry));
    } else {
        let front = sorted.drop_last();
        assert(!name_le(sorted[sorted.len() - 1].name, entry.name));
        assert forall|k: int| at <= k < front.len() implies !name_le(
            (#[trigger] front[k]).name,
            entry.name,
        ) by {
            assert(front[k] == sorted[k]);
        }
        lemma_insert_position(front, entry, at);
        assert(front.insert(at, entry).push(sorted.last()) =~= sorted.insert(at, entry));
    }
}

/// Inserting keeps a sorted run sorted, adds the entry and takes nothing away.
pub proof fn lemma_insert_by_name(sorted: Seq<EntryView>, entry: EntryView)
    requires
        sorted_by_name(sorted),
    ensures
        sorted_by_name(insert_by_name(sorted, entry)),
        insert_by_name(sorted, entry).to_multiset() == sorted.to_multiset().insert(entry),
        insert_by_name(sorted, entry).len() == sorted.len() + 1,
    decreases sorted.len(),
{
    broadcast use vstd::seq_lib::group_to_multiset_ensures;

    let out = insert_by_name(sorted, entry);
    if sorted.len() == 0 || name_le(sorted.last().name, entry.name) {
        assert forall|i: int, j: int| 0 <= i < j < out.len() implies name_le(
            #[trigger] out[i].name,
            #[trigger] out[j].name,
        ) by {
            if j == sorted.len() {
                assert(out[i] == sorted[i]);
                if i < sorted.len() - 1 {
                    assert(name_le(sorted[i].name, sorted[sorted.len() - 1].name));
                    lemma_name_le_transitive(sorted[i].name, sorted.last().name, entry.name);
                }
            } else {
                assert(out[i] == sorted[i] && out[j] == sorted[j]);
            }
        }
    } else {
        let front = sorted.drop_last();
        let last = sorted.last();
        assert forall|i: int, j: int| 0 <= i < j < front.len() implies name_le(
            #[trigger] front[i].name,
            #[trigger] front[j].name,
        ) by {
            assert(front[i] == sorted[i] && front[j] == sorted[j]);
        }
        lemma_insert_by_name(front, entry);
        let inner = insert_by_name(front, entry);
        assert(out == inner.push(last));
        lemma_name_le_total(last.name, entry.name);
        // Every member of `inner` is `entry` or a member of `front`, and both
        // kinds come at or before `last`.
        assert forall|i: int, j: int| 0 <= i < j < out.len() implies name_le(
            #[trigger] out[i].name,
            #[trigger] out[j].name,
        ) by {
            if j == inner.len() {
                let x = inner[i];
                assert(out[i] == x);
                assert(inner.to_multiset().count(x) > 0);
                if x != entry {
                    assert(front.to_multiset().count(x) > 0);
                    assert(front.contains(x));
                    let k = choose|k: int| 0 <= k < front.len() && front[k] == x;
                    assert(sorted[k] == x);
                    assert(name_le(sorted[k].name, sorted[sorted.len() - 1].name));
                }
            } else {
                assert(out[i] == inner[i] && out[j] == inner[j]);
            }
        }
        assert(sorted =~= front.push(last));
        assert(out.to_multiset() =~= sorted.to_multiset().insert(entry));
    }
}

/// Sorting gives a sorted run of the same entries.
pub proof fn lemma_sort_by_name(entries: Seq<EntryView>)
    ensures
        sorted_by_name(sort_by_name(entries)),
        sort_by_name(entries).to_multiset() == entries.to_multiset(),
        sort_by_name(entries).len() == entries.len(),
    decreases entries.len(),
{
    broadcast use vstd::seq_lib::group_to_multiset_ensures;

    if entries.len() != 0 {
        let front = entries.drop_last();
        lemma_sort_by_name(front);
        lemma_insert_by_name(sort_by_name(front), entries.last());
        assert(entries =~= front.push(entries.last()));
    }
}

/// Whether no two entries have the same name.
pub open spec fn names_unique(entries: Seq<EntryView>) -> bool {
    forall|i: int, j: int|
        0 <= i < j < entries.len() ==> (#[trigger] entries[i]).name != (#[trigger] entries[j]).name
}

/// Two sorted runs of the same entries are the same run, if no name occurs
/// twice among them.
pub proof fn lemma_sorted_run_is_unique(one: Seq<EntryView>, other: Seq<EntryView>)
    requires
        sorted_by_name(one),
        sorted_by_name(other),
        names_unique(one),
        one.to_multiset() == other.to_multiset(),
    ensures
        one == other,
    decreases one.len(),
{
    broadcast use vstd::seq_lib::group_to_multiset_ensures;

    assert(one.len() == one.to_multiset().len());
    assert(other.len() == other.to_multiset().len());
    if one.len() == 0 {
        assert(one =~= other);
    } else {
        let n = one.len() as int;
        let x = one[n - 1];
        let y = other[n - 1];
        // Each run's last entry stands somewhere in the other run.
        assert(other.contains(y));
        assert(one.to_multiset().count(y) > 0);
        assert(one.contains(y));
        let p = choose|p: int| 0 <= p < n && one[p] == y;
        assert(one.contains(x));
        assert(other.to_multiset().count(x) > 0);
        assert(other.contains(x));
        let q = choose|q: int| 0 <= q < n && other[q] == x;
        if p < n - 1 {
            assert(name_le(one[p].name, one[n - 1].name));
            if q < n - 1 {
                assert(name_le(other[q].name, other[n - 1].name));
            } else {
                crate::order::lemma_name_le_reflexive(x.name);
            }
            crate::order::lemma_name_le_antisymmetric(x.name, y.name);
            assert(one[p].name == one[n - 1].name);
        }
        assert(x == y);
        let front = one.drop_last();
        let other_front = other.drop_last();
        assert(front =~= one.remove(n - 1));
        assert(other_front =~= other.remove(n - 1));
        assert(front.to_multiset() =~= other_front.to_multiset());
        assert forall|i: int, j: int| 0 <= i < j < front.len() implies name_le(
            #[trigger] front[i].name,
            #[trigger] front[j].name,
        ) by {
            assert(front[i] == one[i] && front[j] == one[j]);
        }
        assert forall|i: int, j: int| 0 <= i < j < other_front.len() implies name_le(
            #[trigger] other_front[i].name,
            #[trigger] other_front[j].name,
        ) by {
            assert(other_front[i] == other[i] && other_front[j] == other[j]);
        }
        assert forall|i: int, j: int| 0 <= i < j < front.len() implies (#[trigger] front[i]).name
            != (#[trigger] front[j]).name by {
            assert(front[i] == one[i] && front[j] == one[j]);
        }
        lemma_sorted_run_is_unique(front, other_front);
        assert(one =~= front.push(x));
        assert(other =~= other_front.push(y));
    }
}

/// A run of the same entries in another order has no name twice either.
pub proof fn lemma_names_unique_in_any_order(one: Seq<EntryView>, other: Seq<EntryView>)
    requires
        names_unique(one),
        one.to_multiset() == other.to_multiset(),
    ensures
        names_unique(other),
{
    broadcast use vstd::seq_lib::group_to_multiset_ensures;

    assert(one.no_duplicates()) by {
        assert forall|i: int, j: int| 0 <= i < one.len() && 0 <= j < one.len() && i != j implies one[i]
            != one[j] by {
            if i < j {
                assert(one[i].name != one[j].name);
            } else {
                assert(one[j].name != one[i].name);
            }
        }
    }
    one.lemma_multiset_has_no_duplicates();
    other.lemma_multiset_has_no_duplicates_conv();
    assert forall|i: int, j: int| 0 <= i < j < other.len() implies (#[trigger] other[i]).name != (
    #[trigger] other[j]).name by {
        assert(other[i] != other[j]);
        assert(other.contains(other[i]));
        assert(other.contains(other[j]));
        assert(one.to_multiset().count(other[i]) > 0);
        assert(one.to_multiset().count(other[j]) > 0);
        assert(one.contains(other[i]));
        assert(one.contains(other[j]));
        let p = choose|p: int| 0 <= p < one.len() && one[p] == other[i];
        let q = choose|q: int| 0 <= q < one.len() && one[q] == other[j];
        if p < q {
            assert(one[p].name != one[q].name);
        } else {
            assert(one[q].name != one[p].name);
        }
    }
}

/// The same entries, with no name twice, sort to the same run in whatever
/// order they come.
pub proof fn lemma_sort_ignores_order(one: Seq<EntryView>, other: Seq<EntryView>)
    requires
        names_unique(one),
        one.to_multiset() == other.to_multiset(),
    ensures
        sort_by_name(one) == sort_by_name(other),
{
    lemma_sort_by_name(one);
    lemma_sort_by_name(other);
    lemma_names_unique_in_any_order(one, sort_by_name(one));
    lemma_sorted_run_is_unique(sort_by_name(one), sort_by_name(other));
}

/// Sorts `entries` by name, byte by byte. Entries of the same name keep
/// their order.
pub fn sort_entries(entries: &mut Vec<Entry>)
    ensures
        entry_views(final(entries)@) == sort_by_name(entry_views(old(entries)@)),
        sorted_by_name(entry_views(final(entries)@)),
        entry_views(final(entries)@).to_multiset() == entry_views(old(entries)@).to_multiset(),
        final(entries)@.len() == old(entries)@.len(),
{
    let ghost given = entries@;
    let ghost given_views = entry_views(given);
    let total: usize = entries.len();
    let mut done: usize = 0;
    proof {
        assert(entry_views(entries@.take(0)) =~= sort_by_name(given_views.take(0)));
    }
    while done < total
        invariant
            done <= total,
            total == given.len(),
            entries@.len() == total,
            given_views == entry_views(given),
            entry_views(entries@.take(done as int)) == sort_by_name(given_views.take(done as int)),
            entries@.skip(done as int) == given.skip(done as int),
        decreases total - done,
    {
        let ghost before = entries@;
        let ghost front = entry_views(before.take(done as int));
        assert(before[done as int] == given[done as int]) by {
            assert(before.skip(done as int)[0] == given.skip(done as int)[0]);
        }
        let entry = entries.remove(done);
        let mut at: usize = done;
        while at > 0 && !name_at_most(entries[at - 1].name.as_slice(), entry.name.as_slice())
            invariant
                at <= done,
                done < total,
                entries@ == before.remove(done as int),
                before.len() == total,
                front == entry_views(before.take(done as int)),
                forall|k: int| at <= k < done ==> !name_le((#[trigger] front[k]).name, entry@.name),
            decreases at,
        {
            proof {
                assert(front[at - 1] == entries@[at - 1]@);
            }
            at -= 1;
        }
        proof {
            if at > 0 {
                assert(front[at - 1] == entries@[at - 1]@);
            }
            lemma_insert_position(front, entry@, at as int);
        }
        entries.insert(at, entry);
        proof {
            let next = given_views.take(done + 1);
            assert(next.drop_last() =~= given_views.take(done as int));
            assert(next.last() == entry@);
            assert(entry_views(entries@.take(done + 1)) =~= front.insert(at as int, entry@));
            let left = entries@.skip(done + 1);
            let right = given.skip(done + 1);
            assert forall|k: int| 0 <= k < left.len() implies #[trigger] left[k] == right[k] by {
                assert(before.skip(done as int)[k + 1] == given.skip(done as int)[k + 1]);
            }
            assert(left =~= right);
        }
        done += 1;
    }
    proof {
        assert(entries@.take(total as int) =~= entries@);
        assert(given_views.take(total as int) =~= given_views);
        lemma_sort_by_name(given_views);
    }
}

impl Object {
    /// The blob with the given content.
    pub fn blob(content: Vec<u8>) -> (object: Object)
        ensures
            object@ == (ObjectView::Blob { content: content@ }),
            object@.well_formed(),
    {
        Object::Blob { content }
    }

    /// The tree of the given entries, put in the order of their names.
    pub fn tree(entries: Vec<Entry>) -> (object: Object)
        ensures
            object@ == (ObjectView::Tree { entries: sort_by_name(entry_views(entries@)) }),
            sorted_by_name(object@->entries),
            object@->entries.to_multiset() == entry_views(entries@).to_multiset(),
    {
        let mut entries = entries;
        sort_entries(&mut entries);
        Object::Tree { entries }
    }

    /// Checks `well_formed`: for a tree, that every name is a valid entry name
    /// and that the entries stand in ascending order of their names.
    pub fn is_well_formed(&self) -> (ok: bool)
        ensures
            ok == self@.well_formed(),
    {
        match self {
            Object::Blob { .. } => true,
            Object::Tree { entries } => {
                let ghost views = entry_views(entries@);
                let mut i: usize = 0;
                while i < entries.len()
                    invariant
                        i <= entries@.len(),
                        views == entry_views(entries@),
                        self@ == (ObjectView::Tree { entries: views }),
                        forall|k: int| 0 <= k < i ==> (#[trigger] views[k]).well_formed(),
                        forall|k: int, l: int|
                            0 <= k < l < i ==> name_le(
                                #[trigger] views[k].name,
                                #[trigger] views[l].name,
                            ),
                    decreases entries@.len() - i,
                {
                    proof {
                        entries@[i as int].target.lemma_len();
                    }
                    if !is_valid_name(entries[i].name.as_slice()) {
                        proof {
                            assert(!views[i as int].well_formed());
                        }
                        return false;
                    }
                    if i > 0 && !name_at_most(
                        entries[i - 1].name.as_slice(),
                        entries[i].name.as_slice(),
                    ) {
                        proof {
                            assert(!name_le(views[i - 1].name, views[i as int].name));
                        }
                        return false;
                    }
                    proof {
                        assert forall|k: int, l: int| 0 <= k < l < i + 1 implies name_le(
                            #[trigger] views[k].name,
                            #[trigger] views[l].name,
                        ) by {
                            if l == i && k < i - 1 {
                                assert(name_le(views[k].name, views[i - 1].name));
                                lemma_name_le_transitive(
                                    views[k].name,
                                    views[i - 1].name,
                                    views[i as int].name,
                                );
                            }
                        }
                    }
                    i += 1;
                }
                true
            },
        }
    }
}

} // verus!
