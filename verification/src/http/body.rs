//! The body of a message: raw bytes, as many as the headers announce.

use super::headers::{field_values, Fields, Headers};
use crate::text::{parse_decimal, parse_usize, string_from_utf8_lossy, utf8_lossy};
use vstd::prelude::*;
use vstd::slice::{slice_subrange, slice_to_vec};
use vstd::utf8::{decode_utf8, valid_utf8};

verus! {

/// The number of body bytes that the header fields announce: the first
/// value of `Content-Length`, where that is a positive number that fits the
/// machine's word.
pub open spec fn content_length(fields: Fields) -> Option<usize> {
    match field_values(fields, "content-length"@) {
        Some(values) => match parse_decimal(values[0]) {
            Some(n) if 0 < n <= usize::MAX => Some(n as usize),
            _ => None,
        },
        None => None,
    }
}

/// The body that follows a header block with the given fields, where
/// `input` is all that is left to read: the announced number of bytes, or
/// nothing where none is announced or fewer bytes are left.
pub open spec fn body_of(fields: Fields, input: Seq<u8>) -> Option<
    Seq<u8>,
> {
    match content_length(fields) {
        Some(n) if n <= input.len() => Some(input.take(n as int)),
        _ => None,
    }
}

#[derive(Debug)]
pub struct HttpBody {
    raw_body: Vec<u8>,
}

impl View for HttpBody {
    type V = Seq<u8>;

    closed spec fn view(&self) -> Seq<u8> {
        self.raw_body@
    }
}

impl HttpBody {
    pub fn new(bytes: &[u8]) -> (body: Self)
        ensures
            body@ == bytes@,
    {
        Self { raw_body: slice_to_vec(bytes) }
    }

    /// The number of bytes that a reader has to supply for the body, if any.
    pub fn expected_len(headers: &Headers) -> (r: Option<usize>)
        requires
            headers.wf(),
        ensures
            r == content_length(headers@),
    {
        match headers.get("content-length") {
            Some(values) => match parse_usize(values[0].as_str()) {
                Some(n) => if n > 0 {
                    Some(n)
                } else {
                    None
                },
                None => None,
            },
            None => None,
        }
    }

    /// Takes the body from the front of `input`, which holds all that is
    /// left to read behind the header block.
    pub fn build(headers: &Headers, input: &[u8]) -> (r: Option<Self>)
        requires
            headers.wf(),
        ensures
            match body_of(headers@, input@) {
                Some(bytes) => r is Some && r->0@ == bytes,
                None => r is None,
            },
    {
        match Self::expected_len(headers) {
            Some(n) => if n <= input.len() {
                Some(Self::new(slice_subrange(input, 0, n)))
            } else {
                None
            },
            None => None,
        }
    }

    /// The bytes of the body.
    pub fn as_bytes(&self) -> (bytes: &[u8])
        ensures
            bytes@ == self@,
    {
        self.raw_body.as_slice()
    }

    /// The body as text, with the replacement character in place of each
    /// sequence of bytes that is not valid UTF-8.
    pub fn as_str_lossy(&self) -> (s: String)
        ensures
            s@ == utf8_lossy(self@),
            valid_utf8(self@) ==> s@ == decode_utf8(self@),
    {
        string_from_utf8_lossy(self.raw_body.as_slice())
    }
}

impl Default for HttpBody {
    fn default() -> (body: Self)
        ensures
            body@.len() == 0,
    {
        Self { raw_body: Vec::new() }
    }
}

} // verus!
