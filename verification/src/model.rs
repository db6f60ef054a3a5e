//! What a directory snapshot stands for: the objects it turns into, their
//! fingerprints, and the order in which they are written.

use vstd::prelude::*;
use crate::digest::fingerprint_of;
use crate::layout::canonical_bytes;
use crate::object::{valid_name, EntryView, Mode, ObjectView};
use crate::packing::{stored_form, StoredView};
use crate::sorting::{
    lemma_names_unique_in_any_order, lemma_sort_by_name, lemma_sort_ignores_order, names_unique,
    sort_by_name,
};
use crate::store::{
    after_put, after_puts, holds, lemma_after_puts_concat, lemma_after_puts_holds,
    lemma_after_puts_keeps, resolvable,
};

verus! {

/// The mathematical value of a snapshot node.
pub enum NodeView {
    /// A regular file with its content and its executable bit.
    File { content: Seq<u8>, executable: bool },
    /// A symbolic link with the text of its target.
    Symlink { target: Seq<u8> },
    /// A directory with its children in the order in which they were listed.
    Directory { children: Seq<ChildView> },
    /// Anything else: a device, a socket, a pipe.
    Special,
}

/// The mathematical value of a named child of a directory.
pub struct ChildView {
    pub name: Seq<u8>,
    pub node: NodeView,
}

/// The name of the store's own directory: `.git`.
pub open spec fn control_dir_name() -> Seq<u8> {
    seq![0x2eu8, 0x67u8, 0x69u8, 0x74u8]
}

/// Whether a child is left out of every listing: it is the store's own
/// directory.
pub open spec fn excluded(child: ChildView) -> bool {
    child.node is Directory && child.name == control_dir_name()
}

/// The mode under which a node is entered in its parent's tree.
pub open spec fn node_mode(node: NodeView) -> Mode {
    match node {
        NodeView::File { executable, .. } => if executable {
            Mode::ExecutableFile
        } else {
            Mode::RegularFile
        },
        NodeView::Symlink { .. } => Mode::Symlink,
        NodeView::Directory { .. } => Mode::Directory,
        NodeView::Special => Mode::RegularFile,
    }
}

/// The object that a node is stored as: a file as a blob of its content, a link
/// as a blob of its target text, a directory as the tree of its listed
/// children, sorted by name. A `Special` node is not stored; the empty blob
/// stands in its place here.
pub open spec fn node_object(node: NodeView) -> ObjectView
    decreases node, 1int,
{
    match node {
        NodeView::File { content, .. } => ObjectView::Blob { content },
        NodeView::Symlink { target } => ObjectView::Blob { content: target },
        NodeView::Directory { children } => ObjectView::Tree {
            entries: sort_by_name(entries_of(children)),
        },
        NodeView::Special => ObjectView::Blob { content: Seq::empty() },
    }
}

/// The fingerprint of a node: that of the canonical bytes of its object.
pub open spec fn node_fingerprint(node: NodeView) -> Seq<u8>
    decreases node, 2int,
{
    fingerprint_of(canonical_bytes(node_object(node)))
}

/// The entry that stands for a child in its parent's tree.
pub open spec fn entry_of(child: ChildView) -> EntryView
    decreases child, 3int,
{
    EntryView { mode: node_mode(child.node), name: child.name, target: node_fingerprint(child.node) }
}

/// The entries of the listed children, in listing order.
pub open spec fn entries_of(children: Seq<ChildView>) -> Seq<EntryView>
    decreases children, 0int,
{
    if children.len() == 0 {
        Seq::empty()
    } else if excluded(children.last()) {
        entries_of(children.drop_last())
    } else {
        entries_of(children.drop_last()).push(entry_of(children.last()))
    }
}

/// Whether a node can be stored: neither it nor anything listed below it is
/// `Special`.
pub open spec fn storable(node: NodeView) -> bool
    decreases node, 1int,
{
    match node {
        NodeView::Directory { children } => all_storable(children),
        NodeView::Special => false,
        _ => true,
    }
}

/// Whether every listed child can be stored.
pub open spec fn all_storable(children: Seq<ChildView>) -> bool
    decreases children, 0int,
{
    children.len() == 0 || (all_storable(children.drop_last()) && (excluded(children.last())
        || storable(children.last().node)))
}

/// A node's object as it is put into the store.
pub open spec fn stored(node: NodeView) -> StoredView {
    stored_form(node_object(node))
}

/// The objects that storing a node puts, in order: for a directory those of
/// its listed children, child by child in listing order, and then its own tree.
pub open spec fn node_writes(node: NodeView) -> Seq<StoredView>
    decreases node, 1int,
{
    match node {
        NodeView::Directory { children } => children_writes(children).push(stored(node)),
        NodeView::Special => Seq::empty(),
        _ => seq![stored(node)],
    }
}

/// The objects that storing the listed children puts, in order.
pub open spec fn children_writes(children: Seq<ChildView>) -> Seq<StoredView>
    decreases children, 0int,
{
    if children.len() == 0 {
        Seq::empty()
    } else if excluded(children.last()) {
        children_writes(children.drop_last())
    } else {
        children_writes(children.drop_last()) + node_writes(children.last().node)
    }
}

/// Whether every name is a valid entry name and none occurs twice.
pub open spec fn listing_ok(children: Seq<ChildView>) -> bool {
    &&& forall|i: int| 0 <= i < children.len() ==> valid_name((#[trigger] children[i]).name)
    &&& forall|i: int, j: int|
        0 <= i < j < children.len() ==> (#[trigger] children[i]).name != (#[trigger] children[j]).name
}

/// Every entry of a listing stands for one of the listed children.
pub proof fn lemma_entries_come_from_children(children: Seq<ChildView>, at: int)
    requires
        0 <= at < entries_of(children).len(),
    ensures
        exists|k: int|
            0 <= k < children.len() && !excluded(#[trigger] children[k]) && entries_of(children)[at]
                == entry_of(children[k]),
    decreases children.len(),
{
    let front = children.drop_last();
    if excluded(children.last()) || at < entries_of(front).len() {
        lemma_entries_come_from_children(front, at);
        let k = choose|k: int|
            0 <= k < front.len() && !excluded(#[trigger] front[k]) && entries_of(front)[at]
                == entry_of(front[k]);
        assert(children[k] == front[k]);
    } else {
        assert(entries_of(children)[at] == entry_of(children[children.len() - 1]));
    }
}

/// No name occurs twice among the entries of a proper listing, and every
/// entry carries the name of a child.
proof fn lemma_entries_keep_names_apart(children: Seq<ChildView>)
    requires
        listing_ok(children),
    ensures
        names_unique(entries_of(children)),
        forall|i: int|
            0 <= i < entries_of(children).len() ==> exists|k: int|
                0 <= k < children.len() && (#[trigger] entries_of(children)[i]).name
                    == children[k].name,
    decreases children.len(),
{
    if children.len() != 0 {
        let front = children.drop_last();
        let last = children.last();
        assert forall|i: int| 0 <= i < front.len() implies valid_name((#[trigger] front[i]).name) by {
            assert(front[i] == children[i]);
        }
        assert forall|i: int, j: int| 0 <= i < j < front.len() implies (#[trigger] front[i]).name != (
        #[trigger] front[j]).name by {
            assert(front[i] == children[i] && front[j] == children[j]);
        }
        lemma_entries_keep_names_apart(front);
        let before = entries_of(front);
        let all = entries_of(children);
        assert(all == if excluded(last) {
            before
        } else {
            before.push(entry_of(last))
        });
        assert forall|i: int| 0 <= i < all.len() implies exists|k: int|
            0 <= k < children.len() && (#[trigger] all[i]).name == children[k].name by {
            if i < before.len() {
                assert(all[i] == before[i]);
                let k = choose|k: int| 0 <= k < front.len() && before[i].name == front[k].name;
                assert(children[k] == front[k]);
            } else {
                assert(all[i].name == children[children.len() - 1].name);
            }
        }
        assert forall|i: int, j: int| 0 <= i < j < all.len() implies (#[trigger] all[i]).name != (
        #[trigger] all[j]).name by {
            if j < before.len() {
                assert(all[i] == before[i] && all[j] == before[j]);
            } else {
                assert(all[i] == before[i]);
                let k = choose|k: int| 0 <= k < front.len() && before[i].name == front[k].name;
                assert(children[k] == front[k]);
                assert(children[k].name != children[children.len() - 1].name);
            }
        }
    }
}

/// Taking one child out of a listing takes its entry out of the entries, and
/// nothing else.
proof fn lemma_entries_without_child(children: Seq<ChildView>, at: int)
    requires
        0 <= at < children.len(),
    ensures
        entries_of(children).to_multiset() == if excluded(children[at]) {
            entries_of(children.remove(at)).to_multiset()
        } else {
            entries_of(children.remove(at)).to_multiset().insert(entry_of(children[at]))
        },
    decreases children.len(),
{
    broadcast use vstd::seq_lib::group_to_multiset_ensures;

    let front = children.drop_last();
    let last = children.last();
    if at == children.len() - 1 {
        assert(children.remove(at) =~= front);
    } else {
        lemma_entries_without_child(front, at);
        let rest = children.remove(at);
        assert(rest.drop_last() =~= front.remove(at));
        assert(rest.last() == last);
        assert(front[at] == children[at]);
        if !excluded(last) {
            assert(entries_of(children).to_multiset() =~= entries_of(front).to_multiset().insert(
                entry_of(last),
            ));
            assert(entries_of(rest).to_multiset() =~= entries_of(front.remove(at)).to_multiset().insert(
                entry_of(last),
            ));
            if !excluded(children[at]) {
                assert(entries_of(children).to_multiset() =~= entries_of(rest).to_multiset().insert(
                    entry_of(children[at]),
                ));
            }
        }
    }
}

/// The same children in another order give the same entries in another order.
pub proof fn lemma_entries_follow_children(one: Seq<ChildView>, other: Seq<ChildView>)
    requires
        one.to_multiset() == other.to_multiset(),
    ensures
        entries_of(one).to_multiset() == entries_of(other).to_multiset(),
    decreases one.len(),
{
    broadcast use vstd::seq_lib::group_to_multiset_ensures;

    assert(one.len() == one.to_multiset().len());
    assert(other.len() == other.to_multiset().len());
    if one.len() == 0 {
        assert(entries_of(one) =~= entries_of(other));
    } else {
        let last = one.last();
        assert(one.contains(last));
        assert(other.to_multiset().count(last) > 0);
        assert(other.contains(last));
        let at = choose|at: int| 0 <= at < other.len() && other[at] == last;
        let front = one.drop_last();
        assert(front =~= one.remove(one.len() - 1));
        assert(front.to_multiset() =~= other.remove(at).to_multiset());
        lemma_entries_follow_children(front, other.remove(at));
        lemma_entries_without_child(other, at);
        if !excluded(last) {
            assert(entries_of(one).to_multiset() =~= entries_of(front).to_multiset().insert(
                entry_of(last),
            ));
        }
    }
}

/// The order in which a directory's children are listed does not show in its
/// fingerprint: two listings of the same children, no name twice, have the
/// same tree and so the same fingerprint.
pub proof fn law_listing_order_is_immaterial(one: Seq<ChildView>, other: Seq<ChildView>)
    requires
        listing_ok(one),
        one.to_multiset() == other.to_multiset(),
    ensures
        node_object(NodeView::Directory { children: one }) == node_object(
            NodeView::Directory { children: other },
        ),
        node_fingerprint(NodeView::Directory { children: one }) == node_fingerprint(
            NodeView::Directory { children: other },
        ),
{
    lemma_entries_keep_names_apart(one);
    lemma_entries_follow_children(one, other);
    lemma_sort_ignores_order(entries_of(one), entries_of(other));
}

/// Files of the same content have the same blob, whatever their names and
/// whether or not they are executable: their entries point at one fingerprint
/// and one object is stored for them.
pub proof fn law_equal_content_shares_blob(one: ChildView, other: ChildView)
    requires
        one.node is File,
        other.node is File,
        one.node->content == other.node->content,
    ensures
        entry_of(one).target == entry_of(other).target,
        stored(one.node) == stored(other.node),
{
}

/// The tree of a proper listing is well formed: its entries have valid names
/// and targets of fingerprint length and stand in ascending order of their
/// names, no name twice.
pub proof fn lemma_directory_tree_well_formed(children: Seq<ChildView>)
    requires
        listing_ok(children),
    ensures
        node_object(NodeView::Directory { children }).well_formed(),
        names_unique(node_object(NodeView::Directory { children })->entries),
{
    broadcast use vstd::seq_lib::group_to_multiset_ensures;

    let listed = entries_of(children);
    let sorted = sort_by_name(listed);
    lemma_sort_by_name(listed);
    lemma_entries_keep_names_apart(children);
    lemma_names_unique_in_any_order(listed, sorted);
    assert forall|i: int| 0 <= i < sorted.len() implies (#[trigger] sorted[i]).well_formed() by {
        assert(sorted.contains(sorted[i]));
        assert(listed.to_multiset().count(sorted[i]) > 0);
        assert(listed.contains(sorted[i]));
        let at = choose|at: int| 0 <= at < listed.len() && listed[at] == sorted[i];
        lemma_entries_come_from_children(children, at);
        let k = choose|k: int|
            0 <= k < children.len() && !excluded(#[trigger] children[k]) && listed[at] == entry_of(
                children[k],
            );
        assert(valid_name(children[k].name));
    }
}

/// What a storable node writes ends with the node's own object.
pub proof fn lemma_node_written_last(node: NodeView)
    requires
        storable(node),
    ensures
        node_writes(node).len() > 0,
        node_writes(node).last() == stored(node),
{
}

/// Every listed child's own object is among what the children write.
pub proof fn lemma_child_written(children: Seq<ChildView>, at: int)
    requires
        0 <= at < children.len(),
        all_storable(children),
        !excluded(children[at]),
    ensures
        exists|i: int|
            0 <= i < children_writes(children).len() && #[trigger] children_writes(children)[i]
                == stored(children[at].node),
    decreases children.len(),
{
    let front = children.drop_last();
    let last = children.last();
    let all = children_writes(children);
    if at == children.len() - 1 {
        lemma_node_written_last(last.node);
        let i = all.len() - 1;
        assert(all[i] == stored(children[at].node));
    } else {
        lemma_child_written(front, at);
        let i = choose|i: int|
            0 <= i < children_writes(front).len() && #[trigger] children_writes(front)[i] == stored(
                front[at].node,
            );
        assert(front[at] == children[at]);
        assert(all[i] == children_writes(front)[i]);
    }
}

/// Children are written before their parent: each entry of a directory's
/// tree points at an object that is put before the tree itself, which is put
/// last.
pub proof fn law_targets_are_written_first(children: Seq<ChildView>)
    requires
        all_storable(children),
    ensures
        ({
            let node = NodeView::Directory { children };
            let writes = node_writes(node);
            let entries = node_object(node)->entries;
            &&& writes.last() == stored(node)
            &&& forall|j: int|
                0 <= j < entries.len() ==> exists|i: int|
                    0 <= i < writes.len() - 1 && (#[trigger] writes[i]).key == (
                    #[trigger] entries[j]).target
        }),
{
    broadcast use vstd::seq_lib::group_to_multiset_ensures;

    let node = NodeView::Directory { children };
    let writes = node_writes(node);
    let listed = entries_of(children);
    let entries = sort_by_name(listed);
    lemma_sort_by_name(listed);
    assert forall|j: int| 0 <= j < entries.len() implies exists|i: int|
        0 <= i < writes.len() - 1 && (#[trigger] writes[i]).key == (#[trigger] entries[j]).target by {
        assert(entries.contains(entries[j]));
        assert(listed.to_multiset().count(entries[j]) > 0);
        assert(listed.contains(entries[j]));
        let at = choose|at: int| 0 <= at < listed.len() && listed[at] == entries[j];
        lemma_entries_come_from_children(children, at);
        let k = choose|k: int|
            0 <= k < children.len() && !excluded(#[trigger] children[k]) && listed[at] == entry_of(
                children[k],
            );
        lemma_child_written(children, k);
        let i = choose|i: int|
            0 <= i < children_writes(children).len() && #[trigger] children_writes(children)[i]
                == stored(children[k].node);
        assert(writes[i] == children_writes(children)[i]);
        assert(writes[i].key == entries[j].target);
    }
}

/// Whether the tree of every directory in `node`, `node` itself included, is
/// resolvable in `log`.
pub open spec fn all_resolvable(log: Seq<StoredView>, node: NodeView) -> bool
    decreases node, 1int,
{
    &&& resolvable(log, node_object(node))
    &&& node matches NodeView::Directory { children } ==> children_resolvable(log, children)
}

/// Whether `all_resolvable` holds of every listed child.
pub open spec fn children_resolvable(log: Seq<StoredView>, children: Seq<ChildView>) -> bool
    decreases children, 0int,
{
    children.len() == 0 || (children_resolvable(log, children.drop_last()) && (excluded(
        children.last(),
    ) || all_resolvable(log, children.last().node)))
}

/// What is resolvable stays resolvable in a store that holds every key that
/// was held.
pub proof fn lemma_resolvable_stays(log: Seq<StoredView>, later: Seq<StoredView>, node: NodeView)
    requires
        forall|key: Seq<u8>| holds(log, key) ==> holds(later, key),
        all_resolvable(log, node),
    ensures
        all_resolvable(later, node),
    decreases node, 1int,
{
    match node {
        NodeView::Directory { children } => {
            lemma_children_resolvable_stay(log, later, children);
        },
        _ => {},
    }
}

/// `lemma_resolvable_stays` for the listed children.
pub proof fn lemma_children_resolvable_stay(
    log: Seq<StoredView>,
    later: Seq<StoredView>,
    children: Seq<ChildView>,
)
    requires
        forall|key: Seq<u8>| holds(log, key) ==> holds(later, key),
        children_resolvable(log, children),
    ensures
        children_resolvable(later, children),
    decreases children, 0int,
{
    if children.len() != 0 {
        lemma_children_resolvable_stay(log, later, children.drop_last());
        if !excluded(children.last()) {
            lemma_resolvable_stays(log, later, children.last().node);
        }
    }
}

/// Once a storable node is written, the tree of every directory in it is
/// resolvable: nothing in the store points at an object that is not there.
pub proof fn law_written_trees_are_resolvable(log: Seq<StoredView>, node: NodeView)
    requires
        storable(node),
    ensures
        all_resolvable(after_puts(log, node_writes(node)), node),
    decreases node, 1int,
{
    match node {
        NodeView::Directory { children } => {
            let below = children_writes(children);
            let writes = node_writes(node);
            let before = after_puts(log, below);
            let after = after_puts(log, writes);
            lemma_written_children_are_resolvable(log, children);
            assert(writes.drop_last() =~= below);
            assert(after == after_put(before, stored(node).key, stored(node).bytes));
            assert forall|key: Seq<u8>| holds(before, key) implies holds(after, key) by {
                let i = choose|i: int| 0 <= i < before.len() && (#[trigger] before[i]).key == key;
                assert(after[i].key == key);
            }
            lemma_children_resolvable_stay(before, after, children);
            law_targets_are_written_first(children);
            let entries = node_object(node)->entries;
            assert forall|j: int| 0 <= j < entries.len() implies holds(
                after,
                (#[trigger] entries[j]).target,
            ) by {
                let i = choose|i: int|
                    0 <= i < writes.len() - 1 && (#[trigger] writes[i]).key == entries[j].target;
                lemma_after_puts_holds(log, writes, i);
            }
        },
        _ => {},
    }
}

/// `law_written_trees_are_resolvable` for the listed children.
pub proof fn lemma_written_children_are_resolvable(log: Seq<StoredView>, children: Seq<ChildView>)
    requires
        all_storable(children),
    ensures
        children_resolvable(after_puts(log, children_writes(children)), children),
    decreases children, 0int,
{
    if children.len() != 0 {
        let front = children.drop_last();
        let last = children.last();
        lemma_written_children_are_resolvable(log, front);
        if !excluded(last) {
            let before = after_puts(log, children_writes(front));
            lemma_after_puts_concat(log, children_writes(front), node_writes(last.node));
            let after = after_puts(before, node_writes(last.node));
            lemma_after_puts_keeps(before, node_writes(last.node));
            lemma_children_resolvable_stay(before, after, front);
            law_written_trees_are_resolvable(before, last.node);
        }
    }
}

} // verus!
