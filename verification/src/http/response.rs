//! Responses and their form on the wire.

use super::headers::{put_field, remove_field, serialize_fields, Fields, Headers};
use super::{HttpStatus, HttpVersion};
use crate::text::{decimal_string, usize_to_string};
use vstd::prelude::*;
use vstd::slice::slice_to_vec;
use vstd::string::StringExecFns;
use vstd::utf8::encode_utf8;

verus! {

/// The fields after the values of `key` were replaced by the one `value`.
pub open spec fn set_field(
    fields: Fields,
    key: Seq<char>,
    value: Seq<char>,
) -> Fields {
    put_field(remove_field(fields, key), key, value)
}

/// The fields of a response after an entity of `len` bytes and the given
/// content type was attached.
pub open spec fn entity_fields(
    fields: Fields,
    len: nat,
    content_type: Seq<char>,
) -> Fields {
    set_field(
        set_field(fields, "Content-Length"@, decimal_string(len)),
        "Content-Type"@,
        content_type,
    )
}

/// The head of a response as text: the status line, the header block and
/// the blank line that ends it.
pub open spec fn response_head(
    version: HttpVersion,
    code: u16,
    reason_phrase: Seq<char>,
    fields: Fields,
) -> Seq<char> {
    version.token() + seq![' '] + decimal_string(code as nat) + seq![' '] + reason_phrase
        + seq!['\r', '\n'] + serialize_fields(fields) + seq!['\r', '\n']
}

#[derive(Debug)]
pub struct HttpResponse {
    pub version: HttpVersion,
    pub status: HttpStatus,
    pub headers: Headers,
    pub entity: Option<Vec<u8>>,
}

impl HttpResponse {
    /// The bytes of the response on the wire: the head in UTF-8, then the
    /// entity as it is.
    pub open spec fn wire_bytes(&self) -> Seq<u8> {
        encode_utf8(
            response_head(
                self.version,
                self.status.spec_props().0,
                self.status.spec_props().1,
                self.headers@,
            ),
        ) + match self.entity {
            Some(bytes) => bytes@,
            None => Seq::empty(),
        }
    }

    pub fn new(status: HttpStatus) -> (r: Self)
        ensures
            r.version == HttpVersion::OnePointOne,
            r.status == status,
            r.headers.wf(),
            r.headers@.len() == 0,
            r.entity is None,
    {
        Self { headers: Headers::new(), version: HttpVersion::OnePointOne, entity: None, status }
    }

    /// Attaches an entity. `Content-Length` and `Content-Type` take the
    /// values that fit it, in place of any that they had.
    pub fn entity(&mut self, entity: &[u8], content_type: &str)
        requires
            old(self).headers.wf(),
        ensures
            final(self).headers.wf(),
            final(self).headers@ == entity_fields(
                old(self).headers@,
                entity@.len(),
                content_type@,
            ),
            final(self).entity is Some,
            final(self).entity->0@ == entity@,
            final(self).version == old(self).version,
            final(self).status == old(self).status,
    {
        let length = usize_to_string(entity.len());
        self.headers.remove("Content-Length");
        self.headers.put("Content-Length", length.as_str());
        self.headers.remove("Content-Type");
        self.headers.put("Content-Type", content_type);
        self.entity = Some(slice_to_vec(entity));
    }

    /// Attaches a text as the entity, in UTF-8.
    pub fn str_entity(&mut self, entity: &str, content_type: &str)
        requires
            old(self).headers.wf(),
        ensures
            final(self).headers.wf(),
            final(self).headers@ == entity_fields(
                old(self).headers@,
                encode_utf8(entity@).len(),
                content_type@,
            ),
            final(self).entity is Some,
            final(self).entity->0@ == encode_utf8(entity@),
            final(self).version == old(self).version,
            final(self).status == old(self).status,
    {
        self.entity(entity.as_bytes(), content_type);
    }

    /// Appends the response to `stream` as it goes over the wire.
    pub fn write(&self, stream: &mut Vec<u8>)
        ensures
            final(stream)@ == old(stream)@ + self.wire_bytes(),
    {
        let mut head = self.version.to_string();
        let props = self.status.props();
        proof {
            reveal_strlit(" ");
            reveal_strlit("\r\n");
            assert(" "@ =~= seq![' ']);
            assert("\r\n"@ =~= seq!['\r', '\n']);
        }
        head.append(" ");
        head.append(usize_to_string(props.0 as usize).as_str());
        head.append(" ");
        head.append(props.1);
        head.append("\r\n");
        head.append(self.headers.response_string().as_str());
        head.append("\r\n");
        let bytes = head.as_str().as_bytes();
        let ghost start = stream@;
        let mut i: usize = 0;
        while i < bytes.len()
            invariant
                i <= bytes@.len(),
                stream@ == start + bytes@.take(i as int),
            decreases bytes@.len() - i,
        {
            stream.push(bytes[i]);
            i += 1;
            proof {
                assert(stream@ =~= start + bytes@.take(i as int));
            }
        }
        proof {
            assert(bytes@.take(i as int) =~= bytes@);
        }
        match &self.entity {
            Some(entity) => {
                let ghost middle = stream@;
                let mut k: usize = 0;
                while k < entity.len()
                    invariant
                        k <= entity@.len(),
                        stream@ == middle + entity@.take(k as int),
                    decreases entity@.len() - k,
                {
                    stream.push(entity[k]);
                    k += 1;
                    proof {
                        assert(stream@ =~= middle + entity@.take(k as int));
                    }
                }
                proof {
                    assert(entity@.take(k as int) =~= entity@);
                    assert(stream@ =~= start + self.wire_bytes());
                }
            },
            None => {
                proof {
                    assert(stream@ =~= start + self.wire_bytes());
                }
            },
        }
    }
}

} // verus!
