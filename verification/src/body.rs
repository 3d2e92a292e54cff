//! Bodies of a known size.
use vstd::prelude::*;

use crate::outside::guess_media_type;

verus! {

/// A body with a fixed known byte size.
pub trait RangeBody {
    /// The value of [`RangeBody::byte_size`].
    spec fn spec_byte_size(&self) -> u64;

    /// The value of [`RangeBody::block_len`].
    spec fn spec_block_len(&self) -> u64;

    /// The total size of the underlying file.
    ///
    /// This does not change for the lifetime of the object.
    fn byte_size(&self) -> (n: u64)
        ensures
            n == self.spec_byte_size(),
    ;

    /// Returns the block size of the body, the largest number of bytes of it to send in any one
    /// response: the byte size where blocks do not apply.
    fn block_len(&self) -> (n: u64)
        ensures
            n == self.spec_block_len(),
    ;
}

/// Implements [`RangeBody`] for any body, constructed with a fixed byte size.
#[derive(Debug)]
pub struct KnownSize<B> {
    byte_size: u64,
    block_len: u64,
    content_type: Option<String>,
    body: B,
}

/// The media type of a file with this extension, or with none.
pub open spec fn file_media_type(extension: Option<Seq<char>>) -> Seq<char> {
    match extension {
        Some(e) => crate::outside::media_type_of(e),
        None => "application/octet-stream"@,
    }
}

/// The media type of a file, by its extension. A file without one, or with one that is no text,
/// has none to go by.
pub fn content_type_of_file(extension: Option<&str>) -> (media_type: String)
    ensures
        media_type@ == file_media_type(
            match extension {
                Some(e) => Some(e@),
                None => None,
            },
        ),
{
    match extension {
        Some(e) => guess_media_type(e),
        None => "application/octet-stream".to_owned(),
    }
}

impl<B> KnownSize<B> {
    /// The number of bytes in the body.
    pub closed spec fn spec_size(&self) -> u64 {
        self.byte_size
    }

    /// The largest number of bytes to send in one response.
    pub closed spec fn spec_block(&self) -> u64 {
        self.block_len
    }

    /// The media type of the body, where it is known.
    pub closed spec fn spec_content_type(&self) -> Option<Seq<char>> {
        match self.content_type {
            Some(t) => Some(t@),
            None => None,
        }
    }

    /// The body itself.
    pub closed spec fn spec_body(&self) -> B {
        self.body
    }

    /// Construct a [`KnownSize`] instance of an open file from the size that its metadata gives
    /// and the extension of its path.
    pub fn file(body: B, byte_size: u64, extension: Option<&str>) -> (known: Self)
        ensures
            known.spec_size() == byte_size,
            known.spec_block() == byte_size,
            known.spec_content_type() == Some(
                file_media_type(
                    match extension {
                        Some(e) => Some(e@),
                        None => None,
                    },
                ),
            ),
            known.spec_body() == body,
    {
        KnownSize {
            byte_size,
            block_len: byte_size,
            content_type: Some(content_type_of_file(extension)),
            body,
        }
    }

    /// As [`KnownSize::file`], with blocks of `block_len` bytes.
    pub fn file_blocks(
        body: B,
        byte_size: u64,
        extension: Option<&str>,
        block_len: u64,
    ) -> (known: Self)
        ensures
            known.spec_size() == byte_size,
            known.spec_block() == block_len,
            known.spec_content_type() == Some(
                file_media_type(
                    match extension {
                        Some(e) => Some(e@),
                        None => None,
                    },
                ),
            ),
            known.spec_body() == body,
    {
        KnownSize {
            byte_size,
            block_len,
            content_type: Some(content_type_of_file(extension)),
            body,
        }
    }

    /// Construct a [`KnownSize`] instance with a byte size supplied manually.
    pub fn sized(body: B, byte_size: u64) -> (known: Self)
        ensures
            known.spec_size() == byte_size,
            known.spec_block() == byte_size,
            known.spec_content_type() is None,
            known.spec_body() == body,
    {
        KnownSize { byte_size, block_len: byte_size, content_type: None, body }
    }

    /// Construct a [`KnownSize`] instance with a byte size supplied manually, and blocks of
    /// `block_len` bytes.
    pub fn sized_blocks(body: B, byte_size: u64, block_len: u64) -> (known: Self)
        ensures
            known.spec_size() == byte_size,
            known.spec_block() == block_len,
            known.spec_content_type() is None,
            known.spec_body() == body,
    {
        KnownSize { byte_size, block_len, content_type: None, body }
    }

    /// Construct a [`KnownSize`] instance from the stream position that seeking to the end of the
    /// body gave.
    pub fn seek(body: B, end_position: u64) -> (known: Self)
        ensures
            known.spec_size() == end_position,
            known.spec_block() == end_position,
            known.spec_content_type() is None,
            known.spec_body() == body,
    {
        KnownSize::sized(body, end_position)
    }

    /// As [`KnownSize::seek`], with blocks of `block_len` bytes.
    pub fn seek_blocks(body: B, end_position: u64, block_len: u64) -> (known: Self)
        ensures
            known.spec_size() == end_position,
            known.spec_block() == block_len,
            known.spec_content_type() is None,
            known.spec_body() == body,
    {
        KnownSize::sized_blocks(body, end_position, block_len)
    }

    /// Returns the block length, which is the size of the body in
    /// bytes, or the maximum number of bytes to return in any one request.
    pub fn block_len(&self) -> (n: u64)
        ensures
            n == self.spec_block(),
    {
        self.block_len
    }

    /// The media type of the body, where it is known.
    pub fn content_type(&self) -> (media_type: Option<String>)
        ensures
            match self.spec_content_type() {
                Some(t) => media_type matches Some(s) && s@ == t,
                None => media_type is None,
            },
    {
        match &self.content_type {
            Some(t) => Some(t.clone()),
            None => None,
        }
    }

    /// The body itself.
    pub fn into_body(self) -> (body: B)
        ensures
            body == self.spec_body(),
    {
        self.body
    }
}

impl<B> RangeBody for KnownSize<B> {
    open spec fn spec_byte_size(&self) -> u64 {
        self.spec_size()
    }

    open spec fn spec_block_len(&self) -> u64 {
        self.spec_block()
    }

    fn byte_size(&self) -> (n: u64) {
        self.byte_size
    }

    fn block_len(&self) -> (n: u64) {
        self.block_len
    }
}

/// A body of a known size has that size and that block length wherever one is asked for.
pub proof fn law_known_size_is_the_size<B>(known: KnownSize<B>)
    ensures
        known.spec_byte_size() == known.spec_size(),
        known.spec_block_len() == known.spec_block(),
{
}

} // verus!
