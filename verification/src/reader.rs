//! Showing what objects hold: listings of trees and the content of blobs.

use vstd::prelude::*;
use crate::digest::hex_bytes;
use crate::error::Error;
use crate::object::{entry_views, Entry, EntryView, Object, ObjectView};
use crate::text::{append_bytes, copy_bytes, push_radix};

verus! {

/// One line of a listing: the name alone, or mode, name and fingerprint in
/// hexadecimal with a space between them; a line feed ends it.
pub open spec fn entry_line(entry: EntryView, verbose: bool) -> Seq<u8> {
    if verbose {
        entry.mode.text() + seq![0x20u8] + entry.name + seq![0x20u8] + hex_bytes(entry.target)
            + seq![0x0au8]
    } else {
        entry.name + seq![0x0au8]
    }
}

/// The lines of all entries, in the order in which the entries stand.
pub open spec fn listing(entries: Seq<EntryView>, verbose: bool) -> Seq<u8>
    decreases entries.len(),
{
    if entries.len() == 0 {
        Seq::empty()
    } else {
        listing(entries.drop_last(), verbose) + entry_line(entries.last(), verbose)
    }
}

/// Appends the line of one entry to `out`.
fn push_entry_line(out: &mut Vec<u8>, entry: &Entry, verbose: bool)
    ensures
        final(out)@ == old(out)@ + entry_line(entry@, verbose),
{
    let ghost start = out@;
    if verbose {
        push_radix(out, entry.mode.to_bits() as usize, 8);
        out.push(0x20);
        append_bytes(out, entry.name.as_slice());
        out.push(0x20);
        let hex = entry.target.to_hex_bytes();
        append_bytes(out, hex.as_slice());
        out.push(0x0a);
    } else {
        append_bytes(out, entry.name.as_slice());
        out.push(0x0a);
    }
    proof {
        assert(out@ =~= start + entry_line(entry@, verbose));
    }
}

/// The lines of `entries`, in the order in which they stand.
pub fn list_entries(entries: &Vec<Entry>, verbose: bool) -> (lines: Vec<u8>)
    ensures
        lines@ == listing(entry_views(entries@), verbose),
{
    let ghost views = entry_views(entries@);
    let mut lines: Vec<u8> = Vec::new();
    let mut i: usize = 0;
    while i < entries.len()
        invariant
            i <= entries@.len(),
            views == entry_views(entries@),
            lines@ == listing(views.take(i as int), verbose),
        decreases entries@.len() - i,
    {
        push_entry_line(&mut lines, &entries[i], verbose);
        proof {
            let next = views.take(i + 1);
            assert(next.drop_last() =~= views.take(i as int));
            assert(next.last() == entries@[i as int]@);
        }
        i += 1;
    }
    proof {
        assert(views.take(entries@.len() as int) =~= views);
    }
    lines
}

/// Lists a tree: one line for each entry, in the order in which the tree
/// holds them. An object of another kind fails with `KindMismatch`.
pub fn list_tree(object: &Object, verbose: bool) -> (lines: Result<Vec<u8>, Error>)
    ensures
        lines matches Ok(text) ==> object@ matches ObjectView::Tree { entries } && text@ == listing(
            entries,
            verbose,
        ),
        lines matches Err(e) ==> e == Error::KindMismatch && !(object@ is Tree),
{
    match object {
        Object::Tree { entries } => Ok(list_entries(entries, verbose)),
        Object::Blob { .. } => Err(Error::KindMismatch),
    }
}

/// The content of a blob. An object of another kind fails with `KindMismatch`.
pub fn blob_content(object: &Object) -> (content: Result<Vec<u8>, Error>)
    ensures
        content matches Ok(bytes) ==> object@ == (ObjectView::Blob { content: bytes@ }),
        content matches Err(e) ==> e == Error::KindMismatch && !(object@ is Blob),
{
    match object {
        Object::Blob { content } => Ok(copy_bytes(content.as_slice())),
        Object::Tree { .. } => Err(Error::KindMismatch),
    }
}

/// What printing an object shows: a blob's content as it is, a tree's
/// verbose listing.
pub open spec fn printed(object: ObjectView) -> Seq<u8> {
    match object {
        ObjectView::Blob { content } => content,
        ObjectView::Tree { entries } => listing(entries, true),
    }
}

/// Renders an object for display: a blob's content without any change or
/// addition, a tree's verbose listing.
pub fn pretty_print(object: &Object) -> (text: Vec<u8>)
    ensures
        text@ == printed(object@),
{
    match object {
        Object::Blob { content } => copy_bytes(content.as_slice()),
        Object::Tree { entries } => list_entries(entries, true),
    }
}

} // verus!
