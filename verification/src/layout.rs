//! The canonical byte layout of objects, and reading it back.
//!
//! A blob is `blob <length>\0<content>`. A tree is `tree <length>\0<body>`, the
//! body holding `<mode> <name>\0<20 raw fingerprint bytes>` for each entry in
//! turn. Lengths are decimal, modes octal, both without leading zeros.

use vstd::prelude::*;
use crate::digest::Fingerprint;
use crate::error::Error;
use crate::object::{entry_views, Entry, EntryView, Mode, Object, ObjectView};
use crate::text::{append_bytes, copy_bytes, decimal, find_byte, push_radix, same_bytes, scan_for};

verus! {

/// `blob ` in ASCII.
pub open spec fn blob_tag() -> Seq<u8> {
    seq![0x62u8, 0x6cu8, 0x6fu8, 0x62u8, 0x20u8]
}

/// `tree ` in ASCII.
pub open spec fn tree_tag() -> Seq<u8> {
    seq![0x74u8, 0x72u8, 0x65u8, 0x65u8, 0x20u8]
}

/// A tag followed by the payload's length in decimal, a zero byte and the payload.
pub open spec fn framed(tag: Seq<u8>, payload: Seq<u8>) -> Seq<u8> {
    tag + decimal(payload.len()) + seq![0u8] + payload
}

/// One entry of a tree body.
pub open spec fn entry_bytes(entry: EntryView) -> Seq<u8> {
    entry.mode.text() + seq![0x20u8] + entry.name + seq![0u8] + entry.target
}

/// A tree body: the entries' bytes one after another, in the order given.
pub open spec fn body_bytes(entries: Seq<EntryView>) -> Seq<u8>
    decreases entries.len(),
{
    if entries.len() == 0 {
        Seq::empty()
    } else {
        body_bytes(entries.drop_last()) + entry_bytes(entries.last())
    }
}

/// The canonical bytes of an object: what is fingerprinted and compressed.
pub open spec fn canonical_bytes(object: ObjectView) -> Seq<u8> {
    match object {
        ObjectView::Blob { content } => framed(blob_tag(), content),
        ObjectView::Tree { entries } => framed(tree_tag(), body_bytes(entries)),
    }
}

/// Appends one entry of a tree body to `out`.
fn push_entry(out: &mut Vec<u8>, entry: &Entry)
    ensures
        final(out)@ == old(out)@ + entry_bytes(entry@),
{
    let ghost start = out@;
    push_radix(out, entry.mode.to_bits() as usize, 8);
    out.push(0x20);
    append_bytes(out, entry.name.as_slice());
    out.push(0);
    append_bytes(out, entry.target.as_bytes().as_slice());
    proof {
        assert(out@ =~= start + entry_bytes(entry@));
    }
}

/// The body of a tree with the given entries.
fn encode_body(entries: &Vec<Entry>) -> (body: Vec<u8>)
    ensures
        body@ == body_bytes(entry_views(entries@)),
{
    let ghost views = entry_views(entries@);
    let mut body: Vec<u8> = Vec::new();
    let mut i: usize = 0;
    while i < entries.len()
        invariant
            i <= entries@.len(),
            views == entry_views(entries@),
            body@ == body_bytes(views.take(i as int)),
        decreases entries@.len() - i,
    {
        push_entry(&mut body, &entries[i]);
        proof {
            let next = views.take(i + 1);
            assert(next.drop_last() =~= views.take(i as int));
            assert(next.last() == entries@[i as int]@);
        }
        i += 1;
    }
    proof {
        assert(views.take(entries@.len() as int) =~= views);
    }
    body
}

/// Puts tag, length and zero byte in front of `payload`.
fn frame(tag: &[u8], payload: &[u8]) -> (bytes: Vec<u8>)
    ensures
        bytes@ == framed(tag@, payload@),
{
    let mut bytes: Vec<u8> = Vec::new();
    append_bytes(&mut bytes, tag);
    push_radix(&mut bytes, payload.len(), 10);
    bytes.push(0);
    append_bytes(&mut bytes, payload);
    proof {
        assert(bytes@ =~= framed(tag@, payload@));
    }
    bytes
}

/// The five bytes of `blob `.
fn blob_tag_bytes() -> (tag: [u8; 5])
    ensures
        tag@ == blob_tag(),
{
    let tag: [u8; 5] = [0x62, 0x6c, 0x6f, 0x62, 0x20];
    proof {
        assert(tag@ =~= blob_tag());
    }
    tag
}

/// The five bytes of `tree `.
fn tree_tag_bytes() -> (tag: [u8; 5])
    ensures
        tag@ == tree_tag(),
{
    let tag: [u8; 5] = [0x74, 0x72, 0x65, 0x65, 0x20];
    proof {
        assert(tag@ =~= tree_tag());
    }
    tag
}

/// The canonical bytes of the blob with the given content.
pub fn encode_blob(content: &[u8]) -> (bytes: Vec<u8>)
    ensures
        bytes@ == canonical_bytes(ObjectView::Blob { content: content@ }),
{
    let tag = blob_tag_bytes();
    frame(tag.as_slice(), content)
}

/// The canonical bytes of the tree with the given entries, which are written
/// in the order in which they stand.
pub fn encode_tree(entries: &Vec<Entry>) -> (bytes: Vec<u8>)
    ensures
        bytes@ == canonical_bytes(ObjectView::Tree { entries: entry_views(entries@) }),
{
    let tag = tree_tag_bytes();
    let body = encode_body(entries);
    frame(tag.as_slice(), body.as_slice())
}

/// Lays `object` out in its canonical bytes.
pub fn encode(object: &Object) -> (bytes: Vec<u8>)
    ensures
        bytes@ == canonical_bytes(object@),
{
    match object {
        Object::Blob { content } => encode_blob(content.as_slice()),
        Object::Tree { entries } => encode_tree(entries),
    }
}

/// Whether `bytes` begins with `prefix`.
pub open spec fn starts_with(bytes: Seq<u8>, prefix: Seq<u8>) -> bool {
    prefix.len() <= bytes.len() && bytes.subrange(0, prefix.len() as int) == prefix
}

/// The payload behind a length field, where `rest` is what follows the tag.
///
/// There is one only if a zero byte ends the field and the field is the
/// length of everything behind that byte, in decimal without leading zeros.
pub open spec fn payload_of(rest: Seq<u8>) -> Option<Seq<u8>> {
    let nul = find_byte(rest, 0);
    if nul >= rest.len() {
        None
    } else {
        let payload = rest.subrange(nul + 1, rest.len() as int);
        if rest.subrange(0, nul) == decimal(payload.len()) {
            Some(payload)
        } else {
            None
        }
    }
}

/// The mode that `text` spells, if it is exactly the text of one.
pub open spec fn parse_mode(text: Seq<u8>) -> Option<Mode> {
    if text == Mode::RegularFile.text() {
        Some(Mode::RegularFile)
    } else if text == Mode::ExecutableFile.text() {
        Some(Mode::ExecutableFile)
    } else if text == Mode::Symlink.text() {
        Some(Mode::Symlink)
    } else if text == Mode::Directory.text() {
        Some(Mode::Directory)
    } else {
        None
    }
}

/// The entry at the front of a non-empty `body`, with the number of bytes it takes.
///
/// The entry must be whole before its mode is looked at: without a space, a
/// zero byte behind it and twenty more bytes the body is truncated, whatever
/// the mode text says.
pub open spec fn first_entry(body: Seq<u8>) -> Result<(EntryView, int), Error> {
    let space = find_byte(body, 0x20);
    let rest = body.skip(space + 1);
    let nul = find_byte(rest, 0);
    if space >= body.len() || nul >= rest.len() || rest.len() - (nul + 1) < 20 {
        Err(Error::TruncatedEntry)
    } else {
        match parse_mode(body.subrange(0, space)) {
            None => Err(Error::InvalidMode),
            Some(mode) => Ok(
                (
                    EntryView {
                        mode,
                        name: rest.subrange(0, nul),
                        target: rest.subrange(nul + 1, nul + 21),
                    },
                    space + nul + 22,
                ),
            ),
        }
    }
}

/// A whole entry takes at least twenty-three bytes and no more than the body has.
pub proof fn lemma_first_entry_size(body: Seq<u8>)
    ensures
        first_entry(body) matches Ok(found) ==> 22 < found.1 <= body.len(),
{
    crate::text::lemma_find_byte(body, 0x20);
    let space = find_byte(body, 0x20);
    if space < body.len() {
        crate::text::lemma_find_byte(body.skip(space + 1), 0);
        if parse_mode(body.subrange(0, space)) is Some {
            lemma_mode_text_nonempty(body.subrange(0, space));
        }
    }
}

/// Text that spells a mode is not empty.
proof fn lemma_mode_text_nonempty(text: Seq<u8>)
    requires
        parse_mode(text) is Some,
    ensures
        text.len() > 0,
{
    let mode = parse_mode(text).unwrap();
    crate::text::lemma_radix_digits_shape(mode.bits(), 8);
}

/// The entries that `body` holds, front to back.
pub open spec fn parse_entries(body: Seq<u8>) -> Result<Seq<EntryView>, Error>
    decreases body.len(),
{
    if body.len() == 0 {
        Ok(Seq::empty())
    } else {
        match first_entry(body) {
            Err(e) => Err(e),
            Ok(found) => {
                proof {
                    lemma_first_entry_size(body);
                }
                match parse_entries(body.skip(found.1)) {
                    Err(e) => Err(e),
                    Ok(more) => Ok(seq![found.0] + more),
                }
            },
        }
    }
}

/// The object that `bytes` lays out, or the reason why they lay out none.
pub open spec fn parse_object(bytes: Seq<u8>) -> Result<ObjectView, Error> {
    if starts_with(bytes, blob_tag()) {
        match payload_of(bytes.skip(5)) {
            None => Err(Error::LengthMismatch),
            Some(content) => Ok(ObjectView::Blob { content }),
        }
    } else if starts_with(bytes, tree_tag()) {
        match payload_of(bytes.skip(5)) {
            None => Err(Error::LengthMismatch),
            Some(body) => match parse_entries(body) {
                Err(e) => Err(e),
                Ok(entries) => Ok(ObjectView::Tree { entries }),
            },
        }
    } else {
        Err(Error::UnknownObjectKind)
    }
}

/// Whether `text` is the text of `mode`.
fn spells(text: &[u8], mode: Mode) -> (yes: bool)
    ensures
        yes == (text@ == mode.text()),
{
    let mut written: Vec<u8> = Vec::new();
    push_radix(&mut written, mode.to_bits() as usize, 8);
    same_bytes(text, written.as_slice())
}

/// Reads a mode from its text.
fn mode_from_text(text: &[u8]) -> (mode: Option<Mode>)
    ensures
        mode == parse_mode(text@),
{
    if spells(text, Mode::RegularFile) {
        Some(Mode::RegularFile)
    } else if spells(text, Mode::ExecutableFile) {
        Some(Mode::ExecutableFile)
    } else if spells(text, Mode::Symlink) {
        Some(Mode::Symlink)
    } else if spells(text, Mode::Directory) {
        Some(Mode::Directory)
    } else {
        None
    }
}

/// Reads the entry that starts at `from`, and says how many bytes it takes.
fn read_entry(body: &[u8], from: usize) -> (found: Result<(Entry, usize), Error>)
    requires
        from < body@.len(),
    ensures
        match found {
            Ok((entry, used)) => first_entry(body@.skip(from as int)) == Ok::<(EntryView, int), Error>(
                (entry@, used as int),
            ),
            Err(e) => first_entry(body@.skip(from as int)) == Err::<(EntryView, int), Error>(e),
        },
{
    let end: usize = body.len();
    let ghost tail = body@.skip(from as int);
    let space: usize = scan_for(body, from, 0x20);
    if space >= end - from {
        return Err(Error::TruncatedEntry);
    }
    let name_at: usize = from + space + 1;
    proof {
        assert(tail.skip(space + 1) =~= body@.subrange(name_at as int, end as int));
    }
    let nul: usize = scan_for(body, name_at, 0);
    if nul >= end - name_at || end - name_at - (nul + 1) < 20 {
        return Err(Error::TruncatedEntry);
    }
    let target_at: usize = name_at + nul + 1;
    proof {
        let rest = tail.skip(space + 1);
        assert(tail.subrange(0, space as int) =~= body@.subrange(from as int, from + space));
        assert(rest.subrange(0, nul as int) =~= body@.subrange(name_at as int, name_at + nul));
        assert(rest.subrange(nul + 1, nul + 21) =~= body@.subrange(
            target_at as int,
            target_at + 20,
        ));
    }
    let mode = match mode_from_text(vstd::slice::slice_subrange(body, from, from + space)) {
        None => {
            return Err(Error::InvalidMode);
        },
        Some(mode) => mode,
    };
    let name = copy_bytes(vstd::slice::slice_subrange(body, name_at, name_at + nul));
    let target = match Fingerprint::from_slice(
        vstd::slice::slice_subrange(body, target_at, target_at + 20),
    ) {
        None => {
            return Err(Error::TruncatedEntry);
        },
        Some(target) => target,
    };
    Ok((Entry { mode, name, target }, space + nul + 22))
}

/// Puts `front` before what the rest of a body held.
spec fn prepend(front: Seq<EntryView>, rest: Result<Seq<EntryView>, Error>) -> Result<
    Seq<EntryView>,
    Error,
> {
    match rest {
        Ok(more) => Ok(front + more),
        Err(e) => Err(e),
    }
}

/// Reads all entries of a tree body.
fn read_entries(body: &[u8]) -> (found: Result<Vec<Entry>, Error>)
    ensures
        match found {
            Ok(entries) => parse_entries(body@) == Ok::<Seq<EntryView>, Error>(entry_views(entries@)),
            Err(e) => parse_entries(body@) == Err::<Seq<EntryView>, Error>(e),
        },
{
    let end: usize = body.len();
    let mut entries: Vec<Entry> = Vec::new();
    let mut at: usize = 0;
    proof {
        assert(body@.skip(0) =~= body@);
        if parse_entries(body@) is Ok {
            let all = parse_entries(body@).unwrap();
            assert(Seq::<EntryView>::empty() + all =~= all);
        }
    }
    while at < end
        invariant
            at <= end,
            end == body@.len(),
            parse_entries(body@) == prepend(
                entry_views(entries@),
                parse_entries(body@.skip(at as int)),
            ),
        decreases end - at,
    {
        let ghost tail = body@.skip(at as int);
        let ghost before = entry_views(entries@);
        proof {
            lemma_first_entry_size(tail);
        }
        match read_entry(body, at) {
            Err(e) => {
                return Err(e);
            },
            Ok((entry, used)) => {
                proof {
                    let after = entry_views(entries@.push(entry));
                    assert(after =~= before + seq![entry@]);
                    assert(tail.skip(used as int) =~= body@.skip(at + used));
                    let rest = parse_entries(body@.skip(at + used));
                    if rest is Ok {
                        assert(before + (seq![entry@] + rest.unwrap()) =~= after + rest.unwrap());
                    }
                }
                entries.push(entry);
                at += used;
            },
        }
    }
    proof {
        assert(entry_views(entries@) + Seq::<EntryView>::empty() =~= entry_views(entries@));
    }
    Ok(entries)
}

/// Splits what follows the tag into length field and payload, and hands back
/// where the payload starts if the field is right.
fn payload_start(bytes: &[u8]) -> (start: Option<usize>)
    requires
        bytes@.len() >= 5,
    ensures
        match start {
            Some(at) => at <= bytes@.len() && payload_of(bytes@.skip(5)) == Some(
                bytes@.skip(at as int),
            ),
            None => payload_of(bytes@.skip(5)).is_none(),
        },
{
    let end: usize = bytes.len();
    let ghost rest = bytes@.skip(5);
    let nul: usize = scan_for(bytes, 5, 0);
    if nul >= end - 5 {
        return None;
    }
    let start: usize = 5 + nul + 1;
    let mut expected: Vec<u8> = Vec::new();
    push_radix(&mut expected, end - start, 10);
    proof {
        assert(rest.subrange(nul + 1, rest.len() as int) =~= bytes@.skip(start as int));
        assert(rest.subrange(0, nul as int) =~= bytes@.subrange(5, 5 + nul));
    }
    if same_bytes(vstd::slice::slice_subrange(bytes, 5, 5 + nul), expected.as_slice()) {
        Some(start)
    } else {
        None
    }
}

/// Whether `bytes` begins with the five bytes of `tag`.
fn has_tag(bytes: &[u8], tag: &[u8; 5]) -> (yes: bool)
    ensures
        yes == starts_with(bytes@, tag@),
{
    bytes.len() >= 5 && same_bytes(vstd::slice::slice_subrange(bytes, 0, 5), tag.as_slice())
}

/// Reads an object back from its canonical bytes. Nothing but the canonical
/// bytes of an object is accepted.
///
/// Fails with `UnknownObjectKind` when the bytes start with neither tag, with
/// `LengthMismatch` when the length field is not followed by a zero byte or is
/// not the decimal length of the payload, and for a tree with `TruncatedEntry`
/// or `InvalidMode` for the first entry that is cut short or has an unknown
/// mode.
pub fn decode(bytes: &[u8]) -> (object: Result<Object, Error>)
    ensures
        match object {
            Ok(o) => parse_object(bytes@) == Ok::<ObjectView, Error>(o@),
            Err(e) => parse_object(bytes@) == Err::<ObjectView, Error>(e),
        },
        object matches Ok(o) ==> bytes@ == canonical_bytes(o@) && o@.readable(),
{
    proof {
        if parse_object(bytes@) is Ok {
            law_decode_accepts_canonical_bytes_only(bytes@);
        }
    }
    let blob = blob_tag_bytes();
    let tree = tree_tag_bytes();
    if has_tag(bytes, &blob) {
        match payload_start(bytes) {
            None => Err(Error::LengthMismatch),
            Some(start) => {
                let content = copy_bytes(vstd::slice::slice_subrange(bytes, start, bytes.len()));
                Ok(Object::Blob { content })
            },
        }
    } else if has_tag(bytes, &tree) {
        match payload_start(bytes) {
            None => Err(Error::LengthMismatch),
            Some(start) => {
                match read_entries(vstd::slice::slice_subrange(bytes, start, bytes.len())) {
                    Err(e) => Err(e),
                    Ok(entries) => Ok(Object::Tree { entries }),
                }
            },
        }
    } else {
        Err(Error::UnknownObjectKind)
    }
}

/// The four mode texts, digit by digit.
pub proof fn lemma_mode_texts()
    ensures
        Mode::RegularFile.text() == seq![0x31u8, 0x30u8, 0x30u8, 0x36u8, 0x34u8, 0x34u8],
        Mode::ExecutableFile.text() == seq![0x31u8, 0x30u8, 0x30u8, 0x37u8, 0x35u8, 0x35u8],
        Mode::Symlink.text() == seq![0x31u8, 0x32u8, 0x30u8, 0x30u8, 0x30u8, 0x30u8],
        Mode::Directory.text() == seq![0x34u8, 0x30u8, 0x30u8, 0x30u8, 0x30u8],
{
    reveal_with_fuel(crate::text::radix_digits, 7);
    assert(Mode::RegularFile.text() =~= seq![0x31u8, 0x30u8, 0x30u8, 0x36u8, 0x34u8, 0x34u8]);
    assert(Mode::ExecutableFile.text() =~= seq![0x31u8, 0x30u8, 0x30u8, 0x37u8, 0x35u8, 0x35u8]);
    assert(Mode::Symlink.text() =~= seq![0x31u8, 0x32u8, 0x30u8, 0x30u8, 0x30u8, 0x30u8]);
    assert(Mode::Directory.text() =~= seq![0x34u8, 0x30u8, 0x30u8, 0x30u8, 0x30u8]);
}

/// Reading a mode's text gives the mode back.
pub proof fn lemma_parse_mode_text(mode: Mode)
    ensures
        parse_mode(mode.text()) == Some(mode),
{
    lemma_mode_texts();
    let regular = Mode::RegularFile.text();
    let executable = Mode::ExecutableFile.text();
    let symlink = Mode::Symlink.text();
    let directory = Mode::Directory.text();
    assert(regular[3] != executable[3]);
    assert(regular[1] != symlink[1]);
    assert(executable[1] != symlink[1]);
    assert(regular.len() != directory.len());
}

/// A body that starts with one more entry is that entry's bytes and then the rest.
pub proof fn lemma_body_bytes_front(first: EntryView, more: Seq<EntryView>)
    ensures
        body_bytes(seq![first] + more) == entry_bytes(first) + body_bytes(more),
    decreases more.len(),
{
    let all = seq![first] + more;
    if more.len() == 0 {
        assert(all.drop_last() =~= Seq::<EntryView>::empty());
        assert(all.last() == first);
        assert(body_bytes(all.drop_last()) =~= Seq::<u8>::empty());
        assert(body_bytes(all) =~= entry_bytes(first) + body_bytes(more));
    } else {
        lemma_body_bytes_front(first, more.drop_last());
        assert(all.drop_last() =~= seq![first] + more.drop_last());
        assert(all.last() == more.last());
        assert(body_bytes(all) =~= entry_bytes(first) + body_bytes(more));
    }
}

/// The bytes of a readable entry, followed by anything, read back as that entry.
pub proof fn lemma_first_entry_reads_back(entry: EntryView, tail: Seq<u8>)
    requires
        entry.readable(),
    ensures
        first_entry(entry_bytes(entry) + tail) == Ok::<(EntryView, int), Error>(
            (entry, entry_bytes(entry).len() as int),
        ),
{
    let text = entry.mode.text();
    let body = entry_bytes(entry) + tail;
    crate::text::lemma_radix_digits_shape(entry.mode.bits(), 8);
    assert forall|i: int| 0 <= i < text.len() implies body[i] != 0x20u8 by {
        assert(body[i] == text[i]);
        assert(crate::text::is_digit(text[i]));
    }
    assert(body[text.len() as int] == 0x20u8);
    crate::text::lemma_find_byte_unique(body, 0x20, text.len() as int);
    let rest = body.skip(text.len() as int + 1);
    assert(rest =~= entry.name + seq![0u8] + entry.target + tail);
    assert forall|i: int| 0 <= i < entry.name.len() implies rest[i] != 0u8 by {
        assert(rest[i] == entry.name[i]);
        assert(entry.name.contains(entry.name[i]));
    }
    assert(rest[entry.name.len() as int] == 0u8);
    crate::text::lemma_find_byte_unique(rest, 0, entry.name.len() as int);
    assert(body.subrange(0, text.len() as int) =~= text);
    lemma_parse_mode_text(entry.mode);
    assert(rest.subrange(0, entry.name.len() as int) =~= entry.name);
    assert(rest.subrange(entry.name.len() as int + 1, entry.name.len() as int + 21) =~= entry.target);
}

/// A body made of readable entries reads back as those entries.
pub proof fn lemma_parse_entries_reads_back(entries: Seq<EntryView>)
    requires
        forall|i: int| 0 <= i < entries.len() ==> (#[trigger] entries[i]).readable(),
    ensures
        parse_entries(body_bytes(entries)) == Ok::<Seq<EntryView>, Error>(entries),
    decreases entries.len(),
{
    if entries.len() == 0 {
        assert(entries =~= Seq::<EntryView>::empty());
    } else {
        let first = entries[0];
        let more = entries.drop_first();
        assert(entries =~= seq![first] + more);
        lemma_body_bytes_front(first, more);
        assert(first.readable());
        lemma_first_entry_reads_back(first, body_bytes(more));
        assert forall|i: int| 0 <= i < more.len() implies (#[trigger] more[i]).readable() by {
            assert(more[i] == entries[i + 1]);
        }
        lemma_parse_entries_reads_back(more);
        let body = body_bytes(entries);
        assert(body == entry_bytes(first) + body_bytes(more));
        assert(body.skip(entry_bytes(first).len() as int) =~= body_bytes(more));
        assert(body.len() > 0);
    }
}

/// A payload behind its own length and a zero byte is found again.
pub proof fn lemma_payload_reads_back(payload: Seq<u8>)
    ensures
        payload_of(decimal(payload.len()) + seq![0u8] + payload) == Some(payload),
{
    let field = decimal(payload.len());
    let rest = field + seq![0u8] + payload;
    crate::text::lemma_radix_digits_shape(payload.len(), 10);
    assert forall|i: int| 0 <= i < field.len() implies rest[i] != 0u8 by {
        assert(rest[i] == field[i]);
        assert(crate::text::is_digit(field[i]));
    }
    assert(rest[field.len() as int] == 0u8);
    crate::text::lemma_find_byte_unique(rest, 0, field.len() as int);
    assert(rest.subrange(field.len() as int + 1, rest.len() as int) =~= payload);
    assert(rest.subrange(0, field.len() as int) =~= field);
}

/// Every object that can be read back is read back from its canonical bytes
/// as itself.
pub proof fn lemma_parse_inverts_layout(object: ObjectView)
    requires
        object.readable(),
    ensures
        parse_object(canonical_bytes(object)) == Ok::<ObjectView, Error>(object),
{
    let bytes = canonical_bytes(object);
    match object {
        ObjectView::Blob { content } => {
            assert(bytes.subrange(0, 5) =~= blob_tag());
            assert(bytes.skip(5) =~= decimal(content.len()) + seq![0u8] + content);
            lemma_payload_reads_back(content);
        },
        ObjectView::Tree { entries } => {
            let body = body_bytes(entries);
            assert(bytes.subrange(0, 5) =~= tree_tag());
            assert(tree_tag()[0] != blob_tag()[0]);
            assert(bytes.skip(5) =~= decimal(body.len()) + seq![0u8] + body);
            lemma_payload_reads_back(body);
            lemma_parse_entries_reads_back(entries);
        },
    }
}

/// Decoding undoes encoding: a well-formed object laid out in its canonical
/// bytes and read back is the same object.
pub proof fn law_decode_inverts_encode(object: ObjectView)
    requires
        object.well_formed(),
    ensures
        parse_object(canonical_bytes(object)) == Ok::<ObjectView, Error>(object),
{
    object.lemma_well_formed_is_readable();
    lemma_parse_inverts_layout(object);
}

/// An entry that is read off the front of a body was written there: the
/// body starts with the entry's bytes, and the entry can be read back.
pub proof fn lemma_first_entry_was_written(body: Seq<u8>)
    requires
        first_entry(body) is Ok,
    ensures
        ({
            let found = first_entry(body).unwrap();
            &&& found.0.readable()
            &&& found.1 == entry_bytes(found.0).len()
            &&& found.1 <= body.len()
            &&& body.subrange(0, found.1) == entry_bytes(found.0)
        }),
{
    let found = first_entry(body).unwrap();
    let entry = found.0;
    let space = find_byte(body, 0x20);
    let rest = body.skip(space + 1);
    let nul = find_byte(rest, 0);
    crate::text::lemma_find_byte(body, 0x20);
    crate::text::lemma_find_byte(rest, 0);
    assert(body.subrange(0, space) == entry.mode.text());
    if entry.name.contains(0u8) {
        let k = choose|k: int| 0 <= k < entry.name.len() && entry.name[k] == 0u8;
        assert(rest[k] == 0u8);
    }
    assert(body.subrange(0, found.1) =~= entry_bytes(entry));
}

/// A body that reads as entries is the layout of those entries, and each of
/// them can be read back.
pub proof fn lemma_parse_entries_was_written(body: Seq<u8>)
    requires
        parse_entries(body) is Ok,
    ensures
        body_bytes(parse_entries(body).unwrap()) == body,
        forall|i: int|
            0 <= i < parse_entries(body).unwrap().len() ==> (#[trigger] parse_entries(
                body,
            ).unwrap()[i]).readable(),
    decreases body.len(),
{
    let entries = parse_entries(body).unwrap();
    if body.len() == 0 {
        assert(body_bytes(entries) =~= body);
    } else {
        let found = first_entry(body).unwrap();
        lemma_first_entry_was_written(body);
        lemma_first_entry_size(body);
        let tail = body.skip(found.1);
        lemma_parse_entries_was_written(tail);
        let more = parse_entries(tail).unwrap();
        assert(entries == seq![found.0] + more);
        lemma_body_bytes_front(found.0, more);
        assert(body =~= body.subrange(0, found.1) + tail);
        assert forall|i: int| 0 <= i < entries.len() implies (#[trigger] entries[i]).readable() by {
            if i > 0 {
                assert(entries[i] == more[i - 1]);
            }
        }
    }
}

/// Only canonical bytes decode: whatever reads as an object is the canonical
/// layout of that object, and the object can be read back.
pub proof fn law_decode_accepts_canonical_bytes_only(bytes: Seq<u8>)
    requires
        parse_object(bytes) is Ok,
    ensures
        canonical_bytes(parse_object(bytes).unwrap()) == bytes,
        parse_object(bytes).unwrap().readable(),
{
    let rest = bytes.skip(5);
    let nul = find_byte(rest, 0);
    crate::text::lemma_find_byte(rest, 0);
    let payload = payload_of(rest).unwrap();
    assert(rest =~= decimal(payload.len()) + seq![0u8] + payload);
    assert(bytes =~= bytes.subrange(0, 5) + rest);
    if starts_with(bytes, blob_tag()) {
        assert(canonical_bytes(parse_object(bytes).unwrap()) =~= bytes);
    } else {
        lemma_parse_entries_was_written(payload);
        assert(canonical_bytes(parse_object(bytes).unwrap()) =~= bytes);
    }
}

/// The canonical bytes tell objects apart: two objects that can be read back
/// and have the same canonical bytes are the same object. Entries in another
/// order, in particular, make other bytes.
pub proof fn law_layout_is_injective(one: ObjectView, other: ObjectView)
    requires
        one.readable(),
        other.readable(),
        canonical_bytes(one) == canonical_bytes(other),
    ensures
        one == other,
{
    lemma_parse_inverts_layout(one);
    lemma_parse_inverts_layout(other);
}

} // verus!
