//! Content fingerprints: the SHA-1 of a byte buffer, held as twenty raw bytes.

use vstd::prelude::*;
use vstd::string::*;

verus! {

/// The SHA-1 digest of a byte string, as RFC 3174 defines it.
pub uninterp spec fn sha1_digest(data: Seq<u8>) -> [u8; 20];

/// The fingerprint of `data`: the twenty bytes of its SHA-1 digest.
pub open spec fn fingerprint_of(data: Seq<u8>) -> Seq<u8> {
    sha1_digest(data)@
}

/// The address of an object: twenty bytes computed from its canonical layout.
#[derive(Clone, Copy, Debug, PartialEq, Eq, Hash)]
pub struct Fingerprint {
    bytes: [u8; 20],
}

impl View for Fingerprint {
    type V = Seq<u8>;

    closed spec fn view(&self) -> Seq<u8> {
        self.bytes@
    }
}

/// Calls `sha1::Sha1::digest` (the `Digest` trait's one-shot hash) and copies the
/// twenty-byte output into an array. The contract names that output `sha1_digest`
/// of the input; nothing about its value is proved here.
#[verifier::external_body]
fn sha1_bytes(data: &[u8]) -> (out: [u8; 20])
    ensures
        out == sha1_digest(data@),
{
    <sha1::Sha1 as sha1::Digest>::digest(data).into()
}

impl Fingerprint {
    /// Every fingerprint is exactly twenty bytes long.
    pub proof fn lemma_len(self)
        ensures
            self@.len() == 20,
    {
    }

    /// Wraps twenty raw bytes.
    pub fn from_bytes(bytes: [u8; 20]) -> (fp: Fingerprint)
        ensures
            fp@ == bytes@,
    {
        Fingerprint { bytes }
    }

    /// Wraps the bytes of `bytes`, which must be twenty.
    pub fn from_slice(bytes: &[u8]) -> (fp: Option<Fingerprint>)
        ensures
            fp.is_some() == (bytes@.len() == 20),
            fp matches Some(f) ==> f@ == bytes@,
    {
        if bytes.len() != 20 {
            return None;
        }
        let mut raw: [u8; 20] = [0u8; 20];
        let mut i: usize = 0;
        while i < 20
            invariant
                i <= 20,
                bytes@.len() == 20,
                forall|k: int| 0 <= k < i ==> raw@[k] == bytes@[k],
            decreases 20 - i,
        {
            raw[i] = bytes[i];
            i += 1;
        }
        proof {
            assert(raw@ =~= bytes@);
        }
        Some(Fingerprint { bytes: raw })
    }

    /// Whether the two fingerprints are the same.
    pub fn same_as(&self, other: &Fingerprint) -> (same: bool)
        ensures
            same == (self@ == other@),
    {
        let mut i: usize = 0;
        while i < 20
            invariant
                i <= 20,
                forall|k: int| 0 <= k < i ==> self.bytes@[k] == other.bytes@[k],
            decreases 20 - i,
        {
            if self.bytes[i] != other.bytes[i] {
                return false;
            }
            i += 1;
        }
        proof {
            assert(self.bytes@ =~= other.bytes@);
        }
        true
    }

    /// The raw bytes.
    pub fn as_bytes(&self) -> (bytes: &[u8; 20])
        ensures
            bytes@ == self@,
    {
        &self.bytes
    }
}

/// Fingerprints `data`: the whole buffer is hashed as one unit.
pub fn fingerprint(data: &[u8]) -> (fp: Fingerprint)
    ensures
        fp@ == fingerprint_of(data@),
{
    Fingerprint { bytes: sha1_bytes(data) }
}

/// The lowercase hexadecimal digit for `n`, meant for `0 <= n < 16`.
pub open spec fn hex_digit(n: int) -> u8 {
    if n < 10 {
        (0x30 + n) as u8
    } else {
        (0x57 + n) as u8
    }
}

/// `raw` in lowercase hexadecimal, two ASCII digits for each byte, the high
/// half first.
pub open spec fn hex_bytes(raw: Seq<u8>) -> Seq<u8> {
    Seq::new(
        2 * raw.len(),
        |i: int|
            hex_digit(
                if i % 2 == 0 {
                    raw[i / 2] as int / 16
                } else {
                    raw[i / 2] as int % 16
                },
            ),
    )
}

/// `hex_bytes` as characters.
pub open spec fn hex_text(raw: Seq<u8>) -> Seq<char> {
    Seq::new(2 * raw.len(), |i: int| hex_bytes(raw)[i] as char)
}

/// Whether `c` is a digit of lowercase hexadecimal.
pub open spec fn is_hex_char(c: char) -> bool {
    ('0' <= c <= '9') || ('a' <= c <= 'f')
}

/// Whether `text` is forty digits of lowercase hexadecimal.
pub open spec fn is_hex_name(text: Seq<char>) -> bool {
    text.len() == 40 && forall|i: int| 0 <= i < text.len() ==> is_hex_char(#[trigger] text[i])
}

/// The hexadecimal name tells fingerprints apart: byte strings with the same
/// hexadecimal text are the same, so different fingerprints are kept in
/// different places.
pub proof fn law_hex_text_is_injective(one: Seq<u8>, other: Seq<u8>)
    requires
        hex_text(one) == hex_text(other),
    ensures
        one == other,
{
    assert(hex_text(one).len() == 2 * one.len());
    assert(hex_text(other).len() == 2 * other.len());
    assert forall|k: int| 0 <= k < one.len() implies one[k] == other[k] by {
        let high = hex_text(one)[2 * k];
        let low = hex_text(one)[2 * k + 1];
        assert(high == hex_bytes(one)[2 * k] as char);
        assert(low == hex_bytes(one)[2 * k + 1] as char);
        assert(hex_text(other)[2 * k] == hex_bytes(other)[2 * k] as char);
        assert(hex_text(other)[2 * k + 1] == hex_bytes(other)[2 * k + 1] as char);
        assert(hex_bytes(one)[2 * k] == hex_digit(one[k] as int / 16));
        assert(hex_bytes(one)[2 * k + 1] == hex_digit(one[k] as int % 16));
        assert(hex_bytes(other)[2 * k] == hex_digit(other[k] as int / 16));
        assert(hex_bytes(other)[2 * k + 1] == hex_digit(other[k] as int % 16));
        assert(hex_bytes(one)[2 * k] == hex_bytes(other)[2 * k]);
        assert(hex_bytes(one)[2 * k + 1] == hex_bytes(other)[2 * k + 1]);
    }
    assert(one =~= other);
}

/// An ASCII character is its own byte.
proof fn lemma_ascii_char(c: char)
    requires
        (c as nat) < 128,
    ensures
        c as u8 as char == c,
        c as u8 as int == c as int,
{
}

/// The ASCII digit for the low four bits of `nibble`.
fn hex_digit_of(nibble: u8) -> (digit: u8)
    requires
        nibble < 16,
    ensures
        digit == hex_digit(nibble as int),
{
    if nibble < 10 {
        0x30 + nibble
    } else {
        0x57 + nibble
    }
}

/// The value of a lowercase hexadecimal digit, if `digit` is one.
fn hex_value_of(digit: u8) -> (value: Option<u8>)
    ensures
        match value {
            Some(v) => v < 16 && hex_digit(v as int) == digit,
            None => !is_hex_char(digit as char),
        },
{
    if 0x30 <= digit && digit <= 0x39 {
        Some(digit - 0x30)
    } else if 0x61 <= digit && digit <= 0x66 {
        Some(digit - 0x57)
    } else {
        None
    }
}

/// Appends the character of one hexadecimal digit to `text`.
fn push_hex_char(text: &mut String, nibble: u8)
    requires
        nibble < 16,
    ensures
        final(text)@ == old(text)@.push(hex_digit(nibble as int) as char),
{
    let digit: &str = match nibble {
        0 => "0",
        1 => "1",
        2 => "2",
        3 => "3",
        4 => "4",
        5 => "5",
        6 => "6",
        7 => "7",
        8 => "8",
        9 => "9",
        10 => "a",
        11 => "b",
        12 => "c",
        13 => "d",
        14 => "e",
        _ => "f",
    };
    proof {
        reveal_strlit("0");
        reveal_strlit("1");
        reveal_strlit("2");
        reveal_strlit("3");
        reveal_strlit("4");
        reveal_strlit("5");
        reveal_strlit("6");
        reveal_strlit("7");
        reveal_strlit("8");
        reveal_strlit("9");
        reveal_strlit("a");
        reveal_strlit("b");
        reveal_strlit("c");
        reveal_strlit("d");
        reveal_strlit("e");
        reveal_strlit("f");
        assert(digit@ =~= seq![hex_digit(nibble as int) as char]);
    }
    let ghost before = text@;
    text.append(digit);
    proof {
        assert(text@ =~= before.push(hex_digit(nibble as int) as char));
    }
}

impl Fingerprint {
    /// The fingerprint in lowercase hexadecimal, as ASCII bytes.
    pub fn to_hex_bytes(&self) -> (hex: Vec<u8>)
        ensures
            hex@ == hex_bytes(self@),
    {
        let mut hex: Vec<u8> = Vec::new();
        let mut i: usize = 0;
        while i < 20
            invariant
                i <= 20,
                hex@.len() == 2 * i,
                forall|k: int| 0 <= k < 2 * i ==> hex@[k] == hex_bytes(self@)[k],
            decreases 20 - i,
        {
            let byte: u8 = self.bytes[i];
            hex.push(hex_digit_of(byte / 16));
            hex.push(hex_digit_of(byte % 16));
            i += 1;
        }
        proof {
            assert(hex@ =~= hex_bytes(self@));
        }
        hex
    }

    /// The fingerprint in lowercase hexadecimal: forty characters.
    pub fn to_hex(&self) -> (hex: String)
        ensures
            hex@ == hex_text(self@),
            is_hex_name(hex@),
    {
        let mut hex: String = String::new();
        let mut i: usize = 0;
        while i < 20
            invariant
                i <= 20,
                hex@.len() == 2 * i,
                forall|k: int| 0 <= k < 2 * i ==> hex@[k] == hex_text(self@)[k],
            decreases 20 - i,
        {
            let byte: u8 = self.bytes[i];
            push_hex_char(&mut hex, byte / 16);
            push_hex_char(&mut hex, byte % 16);
            i += 1;
        }
        proof {
            assert(hex@ =~= hex_text(self@));
            assert forall|k: int| 0 <= k < hex@.len() implies is_hex_char(#[trigger] hex@[k]) by {
                let n: int = if k % 2 == 0 {
                    self@[k / 2] as int / 16
                } else {
                    self@[k / 2] as int % 16
                };
                assert(hex@[k] == hex_digit(n) as char);
            }
        }
        hex
    }

    /// Where the object is kept under a storage root: a directory named by
    /// the first two hexadecimal digits and in it a file named by the other
    /// thirty-eight.
    pub fn location(&self) -> (place: (String, String))
        ensures
            place.0@ == hex_text(self@).take(2),
            place.1@ == hex_text(self@).skip(2),
    {
        let mut dir: String = String::new();
        push_hex_char(&mut dir, self.bytes[0] / 16);
        push_hex_char(&mut dir, self.bytes[0] % 16);
        let mut file: String = String::new();
        let mut i: usize = 1;
        while i < 20
            invariant
                1 <= i <= 20,
                file@.len() == 2 * i - 2,
                forall|k: int| 0 <= k < 2 * i - 2 ==> file@[k] == hex_text(self@)[k + 2],
            decreases 20 - i,
        {
            let byte: u8 = self.bytes[i];
            push_hex_char(&mut file, byte / 16);
            push_hex_char(&mut file, byte % 16);
            i += 1;
        }
        proof {
            assert(dir@ =~= hex_text(self@).take(2));
            assert(file@ =~= hex_text(self@).skip(2));
        }
        (dir, file)
    }

    /// Reads a fingerprint from its forty digits of lowercase hexadecimal.
    ///
    /// Anything else, digits in upper case included, gives nothing.
    pub fn from_hex(text: &str) -> (fp: Option<Fingerprint>)
        ensures
            fp.is_some() == is_hex_name(text@),
            fp matches Some(f) ==> hex_text(f@) == text@,
    {
        if !text.is_ascii() {
            proof {
                if is_hex_name(text@) {
                    assert forall|i: int| 0 <= i < text@.len() implies '\0' <= #[trigger] text@[i]
                        <= '\u{7f}' by {
                        assert(is_hex_char(text@[i]));
                    }
                }
            }
            return None;
        }
        let bytes = text.as_bytes();
        proof {
            is_ascii_spec_bytes(text);
            vstd::utf8::is_ascii_chars_nat_bound(text@);
        }
        if bytes.len() != 40 {
            return None;
        }
        let mut raw: [u8; 20] = [0u8; 20];
        let mut i: usize = 0;
        while i < 20
            invariant
                i <= 20,
                bytes@.len() == 40,
                text@.len() == 40,
                forall|k: int| #![trigger text@[k]] 0 <= k < 40 ==> bytes@[k] == text@[k] as u8,
                forall|k: int| #![trigger text@[k]] 0 <= k < 40 ==> (text@[k] as nat) < 128,
                forall|k: int| 0 <= k < 2 * i ==> is_hex_char(#[trigger] text@[k]),
                forall|k: int| 0 <= k < 2 * i ==> hex_bytes(raw@)[k] == #[trigger] bytes@[k],
            decreases 20 - i,
        {
            let high = match hex_value_of(bytes[2 * i]) {
                Some(v) => v,
                None => {
                    proof {
                        let c = text@[2 * i];
                        lemma_ascii_char(c);
                        assert(!is_hex_char(c));
                    }
                    return None;
                },
            };
            let low = match hex_value_of(bytes[2 * i + 1]) {
                Some(v) => v,
                None => {
                    proof {
                        let c = text@[2 * i + 1];
                        lemma_ascii_char(c);
                        assert(!is_hex_char(c));
                    }
                    return None;
                },
            };
            let ghost before = raw@;
            raw[i] = high * 16 + low;
            proof {
                assert(raw@ == before.update(i as int, (high * 16 + low) as u8));
                assert forall|k: int| 0 <= k < 2 * i + 2 implies hex_bytes(raw@)[k]
                    == #[trigger] bytes@[k] by {
                    if k < 2 * i {
                        assert(raw@[k / 2] == before[k / 2]);
                        assert(hex_bytes(before)[k] == bytes@[k]);
                    }
                }
                assert forall|k: int| 0 <= k < 2 * i + 2 implies is_hex_char(#[trigger] text@[k]) by {
                    if k >= 2 * i {
                        let c = text@[k];
                        lemma_ascii_char(c);
                        assert(bytes@[k] == c as u8);
                    }
                }
            }
            i += 1;
        }
        let found = Fingerprint { bytes: raw };
        proof {
            assert forall|k: int| 0 <= k < 40 implies hex_text(found@)[k] == text@[k] by {
                let c = text@[k];
                assert(hex_bytes(raw@)[k] == bytes@[k]);
                lemma_ascii_char(c);
            }
            assert(hex_text(found@) =~= text@);
        }
        Some(found)
    }
}

} // verus!
