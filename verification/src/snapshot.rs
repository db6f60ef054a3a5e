//! Directory snapshots and the builder that turns one into stored objects.
//!
//! A snapshot is a directory tree held in memory. Building it stores every
//! file as a blob and every directory as a tree of its children, children
//! first, and hands back the fingerprint of the root tree. Symbolic links are
//! stored as blobs of their target text under the link mode; devices, sockets
//! and pipes are not stored, and a snapshot that lists one is refused as a
//! whole before anything is written.

use vstd::prelude::*;
use crate::digest::Fingerprint;
use crate::error::Error;
use crate::model::{
    all_resolvable, all_storable, children_writes, control_dir_name, entries_of, entry_of,
    excluded, law_written_trees_are_resolvable, lemma_directory_tree_well_formed, listing_ok,
    node_fingerprint, node_mode, node_object, node_writes, storable, stored, ChildView, NodeView,
};
use crate::object::{entry_views, is_valid_name, valid_name, Entry, Mode};
use crate::sorting::sort_entries;
use crate::store::{
    after_puts, holds, lemma_after_puts_concat, lemma_after_puts_holds, lemma_after_puts_keeps,
    ObjectStore,
};
use crate::text::{copy_bytes, same_bytes};

verus! {

/// A node of a snapshot.
#[derive(Debug)]
pub enum Node {
    /// A regular file.
    File { content: Vec<u8>, executable: bool },
    /// A symbolic link with the text of its target.
    Symlink { target: Vec<u8> },
    /// A directory.
    Directory(Directory),
    /// Anything else: a device, a socket, a pipe.
    Special,
}

/// A named child of a directory.
#[derive(Debug)]
pub struct Child {
    name: Vec<u8>,
    node: Node,
}

/// A directory of a snapshot: named children in the order in which they were
/// listed. Every name is a valid entry name and no name occurs twice.
#[derive(Debug)]
pub struct Directory {
    children: Vec<Child>,
}

/// The value of a node.
pub closed spec fn node_view(node: Node) -> NodeView
    decreases node,
{
    match node {
        Node::File { content, executable } => NodeView::File { content: content@, executable },
        Node::Symlink { target } => NodeView::Symlink { target: target@ },
        Node::Directory(dir) => NodeView::Directory {
            children: Seq::new(
                dir.children@.len(),
                |i: int|
                    if 0 <= i < dir.children@.len() {
                        ChildView {
                            name: dir.children@[i].name@,
                            node: node_view(dir.children@[i].node),
                        }
                    } else {
                        arbitrary()
                    },
            ),
        },
        Node::Special => NodeView::Special,
    }
}

impl View for Node {
    type V = NodeView;

    closed spec fn view(&self) -> NodeView {
        node_view(*self)
    }
}

impl View for Child {
    type V = ChildView;

    closed spec fn view(&self) -> ChildView {
        ChildView { name: self.name@, node: self.node@ }
    }
}

impl View for Directory {
    type V = Seq<ChildView>;

    closed spec fn view(&self) -> Seq<ChildView> {
        self.children@.map_values(|c: Child| c@)
    }
}

/// Whether a child of the given name is among `children`.
pub open spec fn has_name(children: Seq<ChildView>, name: Seq<u8>) -> bool {
    exists|i: int| 0 <= i < children.len() && (#[trigger] children[i]).name == name
}

impl Node {
    /// What the value of each kind of node is.
    pub proof fn lemma_view(self)
        ensures
            self@ == match self {
                Node::File { content, executable } => NodeView::File {
                    content: content@,
                    executable,
                },
                Node::Symlink { target } => NodeView::Symlink { target: target@ },
                Node::Directory(dir) => NodeView::Directory { children: dir@ },
                Node::Special => NodeView::Special,
            },
    {
        match self {
            Node::Directory(dir) => {
                assert(self@->children =~= dir@);
            },
            _ => {},
        }
    }
}

impl Child {
    /// The child's name.
    pub fn name(&self) -> (name: &Vec<u8>)
        ensures
            name@ == self@.name,
    {
        &self.name
    }

    /// The child itself.
    pub fn node(&self) -> (node: &Node)
        ensures
            node@ == self@.node,
    {
        &self.node
    }
}

impl Directory {
    /// Every name is valid and none occurs twice. This holds of every directory.
    #[verifier::type_invariant]
    pub open spec fn well_formed(&self) -> bool {
        listing_ok(self@)
    }

    /// An empty directory.
    pub fn new() -> (dir: Directory)
        ensures
            dir@ == Seq::<ChildView>::empty(),
    {
        let dir = Directory { children: Vec::new() };
        proof {
            assert(dir@ =~= Seq::<ChildView>::empty());
        }
        dir
    }

    /// The number of children.
    pub fn len(&self) -> (n: usize)
        ensures
            n == self@.len(),
    {
        self.children.len()
    }

    /// The child at position `i` of the listing.
    pub fn child(&self, i: usize) -> (child: &Child)
        requires
            i < self@.len(),
        ensures
            child@ == self@[i as int],
    {
        &self.children[i]
    }

    /// Whether a child of this name is listed.
    pub fn contains_name(&self, name: &[u8]) -> (yes: bool)
        ensures
            yes == has_name(self@, name@),
    {
        let mut i: usize = 0;
        while i < self.children.len()
            invariant
                i <= self.children@.len(),
                forall|k: int| 0 <= k < i ==> (#[trigger] self@[k]).name != name@,
            decreases self.children@.len() - i,
        {
            if same_bytes(self.children[i].name.as_slice(), name) {
                proof {
                    assert(self@[i as int].name == name@);
                }
                return true;
            }
            proof {
                assert(self@[i as int].name != name@);
            }
            i += 1;
        }
        false
    }

    /// Lists `node` under `name` behind the children that are there.
    ///
    /// Nothing is added, and `false` comes back, when `name` is not a valid
    /// entry name or is taken.
    pub fn add(&mut self, name: Vec<u8>, node: Node) -> (added: bool)
        ensures
            added == (valid_name(name@) && !has_name(old(self)@, name@)),
            final(self)@ == if added {
                old(self)@.push(ChildView { name: name@, node: node@ })
            } else {
                old(self)@
            },
    {
        proof {
            use_type_invariant(&*self);
        }
        if !is_valid_name(name.as_slice()) || self.contains_name(name.as_slice()) {
            return false;
        }
        let ghost before = self@;
        let ghost added = ChildView { name: name@, node: node@ };
        let mut children: Vec<Child> = Vec::new();
        core::mem::swap(&mut children, &mut self.children);
        children.push(Child { name, node });
        proof {
            let after = children@.map_values(|c: Child| c@);
            assert(after =~= before.push(added));
            assert forall|i: int, j: int| 0 <= i < j < after.len() implies (#[trigger] after[i]).name
                != (#[trigger] after[j]).name by {
                if j == before.len() {
                    assert(before[i].name != name@);
                }
            }
        }
        self.children = children;
        true
    }
}

/// Whether `name` is the name of the store's own directory.
pub fn is_control_dir(name: &[u8]) -> (yes: bool)
    ensures
        yes == (name@ == control_dir_name()),
{
    let control: [u8; 4] = [0x2e, 0x67, 0x69, 0x74];
    proof {
        assert(control@ =~= control_dir_name());
    }
    same_bytes(name, control.as_slice())
}

/// Whether `child` is left out of every listing.
fn is_excluded(child: &Child) -> (yes: bool)
    ensures
        yes == excluded(child@),
{
    proof {
        child.node.lemma_view();
    }
    match &child.node {
        Node::Directory(_) => is_control_dir(child.name.as_slice()),
        _ => false,
    }
}

/// The first `n` children can be stored if all can, and one more child can
/// be stored with them if it is excluded or can be stored itself.
proof fn lemma_all_storable_prefix(children: Seq<ChildView>, n: int)
    requires
        0 <= n <= children.len(),
    ensures
        all_storable(children) ==> all_storable(children.take(n)),
        n < children.len() ==> (all_storable(children.take(n + 1)) <==> all_storable(
            children.take(n),
        ) && (excluded(children[n]) || storable(children[n].node))),
    decreases children.len(),
{
    if n < children.len() {
        let next = children.take(n + 1);
        assert(next.drop_last() =~= children.take(n));
        assert(next.last() == children[n]);
        lemma_all_storable_prefix(children.drop_last(), n);
        assert(children.drop_last().take(n) =~= children.take(n));
    } else {
        assert(children.take(n) =~= children);
    }
}

impl Directory {
    /// Whether everything listed in this directory can be stored.
    pub fn is_storable(&self) -> (ok: bool)
        ensures
            ok == all_storable(self@),
        decreases self,
    {
        let mut i: usize = 0;
        proof {
            assert(self@.take(0) =~= Seq::<ChildView>::empty());
        }
        while i < self.children.len()
            invariant
                i <= self.children@.len(),
                all_storable(self@.take(i as int)),
            decreases self.children@.len() - i,
        {
            let child = &self.children[i];
            proof {
                lemma_all_storable_prefix(self@, i as int);
                lemma_all_storable_prefix(self@, i + 1);
                child.node.lemma_view();
                assert(self@[i as int] == child@);
            }
            let ok = match &child.node {
                Node::Directory(sub) => {
                    proof {
                        broadcast use vstd::std_specs::vec::axiom_vec_index_decreases;

                        let listed = self.children[i as int];
                        assert(decreases_to!(self => self.children));
                        assert(decreases_to!(self.children => listed));
                        assert(decreases_to!(listed => listed.node));
                        assert(decreases_to!(listed.node => listed.node->Directory_0));
                    }
                    is_control_dir(child.name.as_slice()) || sub.is_storable()
                },
                Node::Special => false,
                _ => true,
            };
            if !ok {
                return false;
            }
            i += 1;
        }
        proof {
            assert(self@.take(self@.len() as int) =~= self@);
        }
        true
    }
}

/// Listing one more child adds its entry and its writes, unless it is excluded.
proof fn lemma_listing_step(children: Seq<ChildView>, n: int)
    requires
        0 <= n < children.len(),
    ensures
        entries_of(children.take(n + 1)) == if excluded(children[n]) {
            entries_of(children.take(n))
        } else {
            entries_of(children.take(n)).push(entry_of(children[n]))
        },
        children_writes(children.take(n + 1)) == if excluded(children[n]) {
            children_writes(children.take(n))
        } else {
            children_writes(children.take(n)) + node_writes(children[n].node)
        },
{
    let next = children.take(n + 1);
    assert(next.drop_last() =~= children.take(n));
    assert(next.last() == children[n]);
}

impl Directory {
    /// Stores everything listed in this directory and then its tree.
    fn write(&self, store: &mut ObjectStore) -> (fp: Fingerprint)
        requires
            all_storable(self@),
        ensures
            fp@ == node_fingerprint(NodeView::Directory { children: self@ }),
            final(store)@ == after_puts(
                old(store)@,
                node_writes(NodeView::Directory { children: self@ }),
            ),
        decreases self,
    {
        let ghost start = store@;
        let mut entries: Vec<Entry> = Vec::new();
        let mut i: usize = 0;
        proof {
            assert(self@.take(0) =~= Seq::<ChildView>::empty());
            assert(entry_views(entries@) =~= entries_of(self@.take(0)));
        }
        while i < self.children.len()
            invariant
                i <= self.children@.len(),
                all_storable(self@),
                entry_views(entries@) == entries_of(self@.take(i as int)),
                store@ == after_puts(start, children_writes(self@.take(i as int))),
            decreases self.children@.len() - i,
        {
            let child = &self.children[i];
            let ghost before = store@;
            let ghost listed = entry_views(entries@);
            proof {
                lemma_all_storable_prefix(self@, i as int);
                lemma_all_storable_prefix(self@, i + 1);
                lemma_listing_step(self@, i as int);
                child.node.lemma_view();
                assert(self@[i as int] == child@);
            }
            if !is_excluded(child) {
                let (mode, target) = match &child.node {
                    Node::File { content, executable } => {
                        let mode = if *executable {
                            Mode::ExecutableFile
                        } else {
                            Mode::RegularFile
                        };
                        (mode, store.store_blob(content.as_slice()))
                    },
                    Node::Symlink { target } => (Mode::Symlink, store.store_blob(target.as_slice())),
                    Node::Directory(sub) => {
                        proof {
                            broadcast use vstd::std_specs::vec::axiom_vec_index_decreases;

                            let listed = self.children[i as int];
                            assert(decreases_to!(self => self.children));
                            assert(decreases_to!(self.children => listed));
                            assert(decreases_to!(listed => listed.node));
                            assert(decreases_to!(listed.node => listed.node->Directory_0));
                        }
                        (Mode::Directory, sub.write(store))
                    },
                    Node::Special => vstd::pervasive::unreached(),
                };
                proof {
                    assert(mode == node_mode(child@.node));
                    assert(target@ == node_fingerprint(child@.node));
                    assert(store@ == after_puts(before, node_writes(child@.node))) by {
                        reveal_with_fuel(after_puts, 2);
                        if !(child@.node is Directory) {
                            assert(node_writes(child@.node) =~= seq![stored(child@.node)]);
                            assert(node_writes(child@.node).drop_last() =~= Seq::<
                                crate::packing::StoredView,
                            >::empty());
                        }
                    }
                    lemma_after_puts_concat(
                        start,
                        children_writes(self@.take(i as int)),
                        node_writes(child@.node),
                    );
                }
                let entry = Entry { mode, name: copy_bytes(child.name.as_slice()), target };
                proof {
                    assert(entry@ == entry_of(child@));
                    assert(entry_views(entries@.push(entry)) =~= listed.push(entry@));
                }
                entries.push(entry);
            }
            i += 1;
        }
        proof {
            assert(self@.take(self@.len() as int) =~= self@);
        }
        sort_entries(&mut entries);
        proof {
            let node = NodeView::Directory { children: self@ };
            let below = children_writes(self@);
            assert(node_writes(node).drop_last() =~= below);
            assert(node_writes(node).last() == stored(node));
        }
        store.store_tree(&entries)
    }

    /// Stores the snapshot rooted in this directory and hands back the
    /// fingerprint of its tree.
    ///
    /// Files become blobs of their content, links blobs of their target text,
    /// directories trees of their children sorted by name; the store's own
    /// directory is left out wherever it is listed. Every object is put
    /// behind the objects it refers to, so that afterwards every tree of the
    /// snapshot finds all its targets in the store; nothing that was stored is
    /// taken away. A snapshot that lists anything else fails with
    /// `UnsupportedEntryKind` and leaves the store as it was.
    pub fn build(&self, store: &mut ObjectStore) -> (root: Result<Fingerprint, Error>)
        ensures
            match root {
                Ok(fp) => {
                    let node = NodeView::Directory { children: self@ };
                    &&& all_storable(self@)
                    &&& fp@ == node_fingerprint(node)
                    &&& final(store)@ == after_puts(old(store)@, node_writes(node))
                    &&& node_object(node).well_formed()
                    &&& holds(final(store)@, fp@)
                    &&& all_resolvable(final(store)@, node)
                },
                Err(e) => {
                    &&& e == Error::UnsupportedEntryKind
                    &&& !all_storable(self@)
                    &&& final(store)@ == old(store)@
                },
            },
            forall|key: Seq<u8>| holds(old(store)@, key) ==> holds(final(store)@, key),
    {
        if self.is_storable() {
            proof {
                use_type_invariant(self);
                let node = NodeView::Directory { children: self@ };
                let writes = node_writes(node);
                lemma_directory_tree_well_formed(self@);
                lemma_after_puts_keeps(store@, writes);
                lemma_after_puts_holds(store@, writes, writes.len() - 1);
                law_written_trees_are_resolvable(store@, node);
            }
            Ok(self.write(store))
        } else {
            Err(Error::UnsupportedEntryKind)
        }
    }
}

} // verus!
