//! Resource identifiers: the CRC-32 of a resource's content together with
//! the content's length, and their canonical text.
//!
//! The canonical text is 25 characters: the digest as eight hexadecimal
//! digits, a hyphen, and the length as sixteen hexadecimal digits, both
//! numbers most significant digit first.

use crate::checksum;
use crate::hex;
use vstd::bytes::*;
use vstd::prelude::*;
use vstd::string::*;

verus! {

/// Number of characters of the digest in the canonical text.
pub const DIGEST_WIDTH: usize = 8;

/// Number of characters of the length in the canonical text.
pub const SIZE_WIDTH: usize = 16;

/// Number of characters of the canonical text.
pub const TEXT_WIDTH: usize = 25;

/// The identity of a resource.
#[derive(Clone, Copy, Debug, PartialEq, Eq, Structural)]
pub struct ResourceId {
    /// CRC-32 of the content.
    pub digest: u32,
    /// Length of the content in bytes.
    pub size: u64,
}

/// Why a text is not a canonical identifier. The first reason that applies,
/// in the order of the variants, is the one reported.
#[derive(Clone, Copy, Debug, PartialEq, Eq, Structural)]
pub enum ParseError {
    /// The text is not 25 characters long.
    WrongLength,
    /// The ninth character is not a hyphen.
    MalformedSeparator,
    /// A character of the digest or of the length is not a lowercase
    /// hexadecimal digit.
    InvalidCharacter,
}

/// The four bytes of `x`, most significant first.
pub open spec fn spec_be32(x: u32) -> Seq<u8> {
    spec_u32_to_le_bytes(x).reverse()
}

/// The eight bytes of `x`, most significant first.
pub open spec fn spec_be64(x: u64) -> Seq<u8> {
    spec_u64_to_le_bytes(x).reverse()
}

/// The characters of `text` that hold the digest.
pub open spec fn spec_digest_part(text: Seq<char>) -> Seq<char> {
    text.subrange(0, DIGEST_WIDTH as int)
}

/// The characters of `text` that hold the length.
pub open spec fn spec_size_part(text: Seq<char>) -> Seq<char> {
    text.subrange(DIGEST_WIDTH + 1, TEXT_WIDTH as int)
}

/// What parsing `text` yields.
pub open spec fn spec_parse(text: Seq<char>) -> Result<ResourceId, ParseError> {
    if text.len() != TEXT_WIDTH {
        Err(ParseError::WrongLength)
    } else if text[DIGEST_WIDTH as int] != '-' {
        Err(ParseError::MalformedSeparator)
    } else if !hex::spec_is_hex(spec_digest_part(text)) || !hex::spec_is_hex(
        spec_size_part(text),
    ) {
        Err(ParseError::InvalidCharacter)
    } else {
        Ok(
            ResourceId {
                digest: spec_u32_from_le_bytes(
                    hex::spec_decode(spec_digest_part(text)).reverse(),
                ),
                size: spec_u64_from_le_bytes(hex::spec_decode(spec_size_part(text)).reverse()),
            },
        )
    }
}

impl ResourceId {
    /// The identifier of `content`.
    pub open spec fn spec_from_content(content: Seq<u8>) -> ResourceId {
        ResourceId { digest: checksum::spec_crc32(content), size: content.len() as u64 }
    }

    /// The canonical text.
    pub open spec fn spec_text(self) -> Seq<char> {
        hex::spec_encode(spec_be32(self.digest)) + seq!['-'] + hex::spec_encode(
            spec_be64(self.size),
        )
    }

    /// Computes the identifier of `content`.
    pub fn from_content(content: &[u8]) -> (id: ResourceId)
        ensures
            id == Self::spec_from_content(content@),
    {
        ResourceId { digest: checksum::crc32(content), size: content.len() as u64 }
    }

    /// Reads a canonical text. Nothing but the text decides the outcome.
    pub fn parse(text: &str) -> (result: Result<ResourceId, ParseError>)
        ensures
            result == spec_parse(text@),
    {
        if text.unicode_len() != TEXT_WIDTH {
            return Err(ParseError::WrongLength);
        }
        if text.get_char(DIGEST_WIDTH) != '-' {
            return Err(ParseError::MalformedSeparator);
        }
        let digest_text = text.substring_char(0, DIGEST_WIDTH);
        let size_text = text.substring_char(DIGEST_WIDTH + 1, TEXT_WIDTH);
        match (hex::decode(digest_text), hex::decode(size_text)) {
            (Some(digest_bytes), Some(size_bytes)) => {
                let digest_le = reversed(digest_bytes.as_slice());
                let size_le = reversed(size_bytes.as_slice());
                Ok(
                    ResourceId {
                        digest: u32_from_le_bytes(digest_le.as_slice()),
                        size: u64_from_le_bytes(size_le.as_slice()),
                    },
                )
            },
            _ => Err(ParseError::InvalidCharacter),
        }
    }

    /// Writes the canonical text.
    pub fn to_string(&self) -> (text: String)
        ensures
            text@ == self.spec_text(),
    {
        proof {
            reveal_strlit("-");
        }
        let digest_le = u32_to_le_bytes(self.digest);
        let size_le = u64_to_le_bytes(self.size);
        let mut text = hex::encode(reversed(digest_le.as_slice()).as_slice());
        text.append("-");
        text.append(hex::encode(reversed(size_le.as_slice()).as_slice()).as_str());
        assert("-"@ =~= seq!['-']);
        text
    }
}

fn reversed(bytes: &[u8]) -> (out: Vec<u8>)
    ensures
        out@ == bytes@.reverse(),
{
    let mut out: Vec<u8> = Vec::new();
    let mut i: usize = bytes.len();
    while i > 0
        invariant
            i <= bytes.len(),
            out@.len() == bytes.len() - i,
            forall|k: int| 0 <= k < out@.len() ==> out@[k] == bytes@[bytes@.len() - 1 - k],
        decreases i,
    {
        i = i - 1;
        out.push(bytes[i]);
    }
    assert(out@ =~= bytes@.reverse());
    out
}

/// Parsing the canonical text of an identifier gives the identifier back.
pub proof fn lemma_parse_text(id: ResourceId)
    ensures
        id.spec_text().len() == TEXT_WIDTH,
        spec_parse(id.spec_text()) == Ok::<ResourceId, ParseError>(id),
{
    lemma_auto_spec_u32_to_from_le_bytes();
    lemma_auto_spec_u64_to_from_le_bytes();
    let text = id.spec_text();
    let digest_bytes = spec_be32(id.digest);
    let size_bytes = spec_be64(id.size);
    assert(spec_u32_to_le_bytes(id.digest).len() == 4);
    assert(spec_u64_to_le_bytes(id.size).len() == 8);
    hex::lemma_decode_encode(digest_bytes);
    hex::lemma_decode_encode(size_bytes);
    assert(spec_digest_part(text) =~= hex::spec_encode(digest_bytes));
    assert(spec_size_part(text) =~= hex::spec_encode(size_bytes));
    assert(digest_bytes.reverse() =~= spec_u32_to_le_bytes(id.digest));
    assert(size_bytes.reverse() =~= spec_u64_to_le_bytes(id.size));
}

/// A text that parses is the canonical text of what it parses to: no two
/// texts name the same identifier.
pub proof fn lemma_text_parse(text: Seq<char>)
    requires
        spec_parse(text) is Ok,
    ensures
        spec_parse(text)->Ok_0.spec_text() == text,
{
    lemma_auto_spec_u32_to_from_le_bytes();
    lemma_auto_spec_u64_to_from_le_bytes();
    let id = spec_parse(text)->Ok_0;
    let digest_text = spec_digest_part(text);
    let size_text = spec_size_part(text);
    let digest_le = hex::spec_decode(digest_text).reverse();
    let size_le = hex::spec_decode(size_text).reverse();
    hex::lemma_encode_decode(digest_text);
    hex::lemma_encode_decode(size_text);
    assert(digest_le.len() == 4);
    assert(size_le.len() == 8);
    assert(spec_u32_to_le_bytes(spec_u32_from_le_bytes(digest_le)) == digest_le);
    assert(spec_u64_to_le_bytes(spec_u64_from_le_bytes(size_le)) == size_le);
    assert(digest_le.reverse() =~= hex::spec_decode(digest_text));
    assert(size_le.reverse() =~= hex::spec_decode(size_text));
    assert(id.spec_text() =~= text);
}

} // verus!
