//! The object model: blobs, trees, tree entries and their modes.

use vstd::prelude::*;
use crate::digest::Fingerprint;
use crate::order::name_le;
use crate::text::octal;

verus! {

/// What a tree entry refers to.
#[derive(Clone, Copy, Debug, PartialEq, Eq, Structural)]
pub enum Mode {
    RegularFile,
    ExecutableFile,
    Symlink,
    Directory,
}

impl Mode {
    /// The number that stands for the mode in a tree body.
    pub open spec fn bits(self) -> nat {
        match self {
            Mode::RegularFile => 0o100644,
            Mode::ExecutableFile => 0o100755,
            Mode::Symlink => 0o120000,
            Mode::Directory => 0o40000,
        }
    }

    /// The mode as it is written in a tree body: its number in octal digits.
    pub open spec fn text(self) -> Seq<u8> {
        octal(self.bits())
    }

    /// The number that stands for the mode in a tree body.
    pub fn to_bits(self) -> (bits: u32)
        ensures
            bits == self.bits(),
    {
        match self {
            Mode::RegularFile => 0o100644,
            Mode::ExecutableFile => 0o100755,
            Mode::Symlink => 0o120000,
            Mode::Directory => 0o40000,
        }
    }

    /// The mode that `bits` stands for, if it is one of the four.
    pub open spec fn of_bits(bits: nat) -> Option<Mode> {
        if bits == 0o100644 {
            Some(Mode::RegularFile)
        } else if bits == 0o100755 {
            Some(Mode::ExecutableFile)
        } else if bits == 0o120000 {
            Some(Mode::Symlink)
        } else if bits == 0o40000 {
            Some(Mode::Directory)
        } else {
            None
        }
    }

    /// The mode that `bits` stands for, if it is one of the four.
    pub fn from_bits(bits: u32) -> (mode: Option<Mode>)
        ensures
            mode == Mode::of_bits(bits as nat),
            mode matches Some(m) ==> m.bits() == bits,
    {
        if bits == 0o100644 {
            Some(Mode::RegularFile)
        } else if bits == 0o100755 {
            Some(Mode::ExecutableFile)
        } else if bits == 0o120000 {
            Some(Mode::Symlink)
        } else if bits == 0o40000 {
            Some(Mode::Directory)
        } else {
            None
        }
    }
}

/// Whether `name` can name a tree entry: not empty, and free of `/` and of the
/// zero byte.
pub open spec fn valid_name(name: Seq<u8>) -> bool {
    &&& name.len() > 0
    &&& forall|i: int| 0 <= i < name.len() ==> name[i] != 0 && name[i] != 0x2f
}

/// Checks `valid_name`.
pub fn is_valid_name(name: &[u8]) -> (ok: bool)
    ensures
        ok == valid_name(name@),
{
    if name.len() == 0 {
        return false;
    }
    let mut i: usize = 0;
    while i < name.len()
        invariant
            i <= name@.len(),
            forall|k: int| 0 <= k < i ==> name@[k] != 0 && name@[k] != 0x2f,
        decreases name@.len() - i,
    {
        if name[i] == 0 || name[i] == 0x2f {
            return false;
        }
        i += 1;
    }
    true
}

/// One line of a tree: a named reference to another object.
#[derive(Clone, Debug, PartialEq, Eq)]
pub struct Entry {
    pub mode: Mode,
    pub name: Vec<u8>,
    pub target: Fingerprint,
}

/// The mathematical value of an `Entry`.
pub struct EntryView {
    pub mode: Mode,
    pub name: Seq<u8>,
    pub target: Seq<u8>,
}

impl EntryView {
    /// What the layout needs to be read back: a name without a zero byte and a
    /// target of fingerprint length.
    pub open spec fn readable(self) -> bool {
        &&& !self.name.contains(0u8)
        &&& self.target.len() == 20
    }

    /// A valid name and a target of fingerprint length.
    pub open spec fn well_formed(self) -> bool {
        &&& valid_name(self.name)
        &&& self.target.len() == 20
    }
}

impl View for Entry {
    type V = EntryView;

    open spec fn view(&self) -> EntryView {
        EntryView { mode: self.mode, name: self.name@, target: self.target@ }
    }
}

impl Entry {
    /// Makes an entry, or nothing when `name` is not a valid entry name.
    pub fn new(mode: Mode, name: Vec<u8>, target: Fingerprint) -> (entry: Option<Entry>)
        ensures
            entry.is_some() == valid_name(name@),
            entry matches Some(e) ==> e@ == (EntryView { mode, name: name@, target: target@ })
                && e@.well_formed(),
    {
        if is_valid_name(name.as_slice()) {
            proof {
                target.lemma_len();
            }
            Some(Entry { mode, name, target })
        } else {
            None
        }
    }
}

/// A stored object.
#[derive(Clone, Debug, PartialEq, Eq)]
pub enum Object {
    /// Raw file content.
    Blob { content: Vec<u8> },
    /// A directory listing.
    Tree { entries: Vec<Entry> },
}

/// The mathematical value of an `Object`.
pub enum ObjectView {
    Blob { content: Seq<u8> },
    Tree { entries: Seq<EntryView> },
}

/// Whether the entries stand in ascending order of their names.
pub open spec fn sorted_by_name(entries: Seq<EntryView>) -> bool {
    forall|i: int, j: int|
        0 <= i < j < entries.len() ==> name_le(#[trigger] entries[i].name, #[trigger] entries[j].name)
}

impl ObjectView {
    /// What the layout needs to be read back: every entry is `readable`.
    pub open spec fn readable(self) -> bool {
        match self {
            ObjectView::Blob { .. } => true,
            ObjectView::Tree { entries } => forall|i: int|
                0 <= i < entries.len() ==> (#[trigger] entries[i]).readable(),
        }
    }

    /// A blob always is; a tree is when its entries are well formed and stand
    /// in ascending order of their names.
    pub open spec fn well_formed(self) -> bool {
        match self {
            ObjectView::Blob { .. } => true,
            ObjectView::Tree { entries } => {
                &&& forall|i: int| 0 <= i < entries.len() ==> (#[trigger] entries[i]).well_formed()
                &&& sorted_by_name(entries)
            },
        }
    }

    /// A well-formed object can be read back.
    pub proof fn lemma_well_formed_is_readable(self)
        requires
            self.well_formed(),
        ensures
            self.readable(),
    {
        match self {
            ObjectView::Blob { .. } => {},
            ObjectView::Tree { entries } => {
                assert forall|i: int| 0 <= i < entries.len() implies (
                #[trigger] entries[i]).readable() by {
                    let e = entries[i];
                    assert(e.well_formed());
                    if e.name.contains(0u8) {
                        let k = choose|k: int| 0 <= k < e.name.len() && e.name[k] == 0u8;
                        assert(e.name[k] != 0);
                    }
                }
            },
        }
    }
}

/// The values of a run of entries.
pub open spec fn entry_views(entries: Seq<Entry>) -> Seq<EntryView> {
    entries.map_values(|e: Entry| e@)
}

impl View for Object {
    type V = ObjectView;

    open spec fn view(&self) -> ObjectView {
        match *self {
            Object::Blob { content } => ObjectView::Blob { content: content@ },
            Object::Tree { entries } => ObjectView::Tree { entries: entry_views(entries@) },
        }
    }
}

} // verus!
