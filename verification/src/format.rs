//! Content formats: how the bytes of a resource's content map to the bytes
//! stored in an entry.

use vstd::prelude::*;
use vstd::slice::*;

verus! {

/// The tag byte that marks a `Raw` entry on the medium.
pub const RAW_TAG: u8 = 0;

/// An encoding policy for content.
#[derive(Clone, Copy, Debug, PartialEq, Eq, Structural)]
pub enum Format {
    /// The content is stored as it is.
    Raw,
}

/// Stored bytes could not be read under the format they claim.
#[derive(Clone, Copy, Debug, PartialEq, Eq, Structural)]
pub struct FormatError {
    /// The tag byte of the offending entry.
    pub tag: u8,
}

impl Format {
    /// The tag byte of this format.
    pub open spec fn spec_tag(self) -> u8 {
        match self {
            Format::Raw => RAW_TAG,
        }
    }

    /// The format that a tag byte names, if any.
    pub open spec fn spec_from_tag(tag: u8) -> Option<Format> {
        if tag == RAW_TAG {
            Some(Format::Raw)
        } else {
            None
        }
    }

    /// The stored form of `raw`.
    pub open spec fn spec_encode(self, raw: Seq<u8>) -> Seq<u8> {
        match self {
            Format::Raw => raw,
        }
    }

    /// The content that `stored` holds, or `None` when `stored` is not the
    /// stored form of any content.
    pub open spec fn spec_decode(self, stored: Seq<u8>) -> Option<Seq<u8>> {
        match self {
            Format::Raw => Some(stored),
        }
    }

    /// The tag byte of this format.
    pub fn tag(self) -> (tag: u8)
        ensures
            tag == self.spec_tag(),
    {
        match self {
            Format::Raw => RAW_TAG,
        }
    }

    /// The format that `tag` names; an error that carries `tag` when it
    /// names none.
    pub fn from_tag(tag: u8) -> (result: Result<Format, FormatError>)
        ensures
            match Self::spec_from_tag(tag) {
                Some(format) => result == Ok::<Format, FormatError>(format),
                None => result == Err::<Format, FormatError>(FormatError { tag }),
            },
    {
        if tag == RAW_TAG {
            Ok(Format::Raw)
        } else {
            Err(FormatError { tag })
        }
    }

    /// Encodes content for storage.
    pub fn encode(self, raw: &[u8]) -> (stored: Vec<u8>)
        ensures
            stored@ == self.spec_encode(raw@),
    {
        match self {
            Format::Raw => slice_to_vec(raw),
        }
    }

    /// Decodes stored bytes; fails, with this format's tag, exactly when
    /// they are not the stored form of any content.
    pub fn decode(self, stored: &[u8]) -> (result: Result<Vec<u8>, FormatError>)
        ensures
            match self.spec_decode(stored@) {
                Some(raw) => result is Ok && result->Ok_0@ == raw,
                None => result == Err::<Vec<u8>, FormatError>(
                    FormatError { tag: self.spec_tag() },
                ),
            },
    {
        match self {
            Format::Raw => Ok(slice_to_vec(stored)),
        }
    }
}

/// Every format has its own tag, and the tag names it.
pub proof fn lemma_tag_names_format(format: Format)
    ensures
        Format::spec_from_tag(format.spec_tag()) == Some(format),
{
}

/// A tag names at most the format that carries it.
pub proof fn lemma_format_carries_tag(tag: u8)
    requires
        Format::spec_from_tag(tag) is Some,
    ensures
        Format::spec_from_tag(tag)->0.spec_tag() == tag,
{
}

/// Decoding what was encoded under the same format gives the content back.
pub proof fn lemma_decode_encode(format: Format, raw: Seq<u8>)
    ensures
        format.spec_decode(format.spec_encode(raw)) == Some(raw),
{
}

} // verus!
