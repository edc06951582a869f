//! Requests and the parser that reads them.
//!
//! The parser is a state machine. Whoever owns the stream asks it what it
//! needs next, a line or a number of body bytes, reads that and hands it
//! over. `HttpRequest::build` drives the machine over bytes in memory.

use super::body::{body_of, content_length, HttpBody};
use super::headers::{put_field, Fields, Headers};
use super::{method_is, version_of, HttpMethod, HttpVersion, ParseError};
use crate::text::{
    ascii_tokens, chars_to_string, find_char, split_ascii_whitespace, split_once, str_to_chars,
    string_from_utf8, strings_view, trim, trimmed, utf8_lossy,
};
use vstd::prelude::*;
use vstd::slice::{slice_subrange, slice_to_vec};
use vstd::string::StringExecFns;
use vstd::utf8::{decode_utf8, valid_utf8};

verus! {

/// What a request holds, as plain values.
pub struct RequestView {
    /// The method token of the request line.
    pub method: Seq<char>,
    pub path: Seq<char>,
    pub version: HttpVersion,
    pub fields: Fields,
    pub body: Option<Seq<u8>>,
    /// The text of the request as it was read, the body decoded lossily.
    pub raw_request: Seq<char>,
}

/// What the parser waits for.
#[derive(Debug, Clone, Copy, PartialEq, Eq, Structural)]
pub enum Stage {
    RequestLine,
    HeaderLine,
    Body,
    Complete,
}

/// What the owner of the stream has to supply next.
#[derive(Debug, Clone, Copy, PartialEq, Eq, Structural)]
pub enum Next {
    /// All bytes up to and including the next line feed, or all that is
    /// left where no line feed comes.
    Line,
    /// Exactly this many bytes, or word that they could not be read.
    Body(usize),
    /// Nothing: the request is complete.
    Done,
}

/// The state of the parser, as plain values.
pub struct ParserView {
    pub stage: Stage,
    /// The tokens of the request line.
    pub props: Seq<Seq<char>>,
    pub fields: Fields,
    pub body: Option<Seq<u8>>,
    pub raw_request: Seq<char>,
}

/// The state in which every parser begins.
pub open spec fn initial_parser() -> ParserView {
    ParserView {
        stage: Stage::RequestLine,
        props: Seq::empty(),
        fields: Seq::empty(),
        body: None,
        raw_request: Seq::empty(),
    }
}

/// The fields after one trimmed, non-empty header line: a line with a colon
/// puts what follows the first colon under what precedes it, a line without
/// one changes nothing.
pub open spec fn header_step(fields: Fields, line: Seq<char>) -> Fields {
    match split_once(line, ':') {
        Some((key, value)) => put_field(fields, key, value),
        None => fields,
    }
}

/// The state after a line was handed over, or the error that the line causes.
pub open spec fn line_step(p: ParserView, line: Seq<u8>) -> Result<ParserView, ParseError> {
    if !valid_utf8(line) {
        Err(ParseError::InvalidUtf8)
    } else {
        let text = decode_utf8(line);
        match p.stage {
            Stage::RequestLine => {
                let props = split_ascii_whitespace(trim(text));
                if props.len() != 3 {
                    Err(ParseError::MalformedRequestLine)
                } else {
                    Ok(ParserView { stage: Stage::HeaderLine, props, raw_request: text, ..p })
                }
            },
            Stage::HeaderLine => {
                let raw_request = p.raw_request + text;
                if trim(text).len() == 0 {
                    let stage = if content_length(p.fields) is Some {
                        Stage::Body
                    } else {
                        Stage::Complete
                    };
                    Ok(ParserView { stage, raw_request, ..p })
                } else {
                    Ok(ParserView { fields: header_step(p.fields, trim(text)), raw_request, ..p })
                }
            },
            _ => Ok(p),
        }
    }
}

/// The state after the body bytes were handed over, or word that they could
/// not be read.
pub open spec fn body_step(p: ParserView, bytes: Option<Seq<u8>>) -> ParserView {
    if p.stage is Body {
        ParserView {
            stage: Stage::Complete,
            body: bytes,
            raw_request: match bytes {
                Some(b) => p.raw_request + utf8_lossy(b),
                None => p.raw_request,
            },
            ..p
        }
    } else {
        p
    }
}

/// What the parser asks for in a given state.
pub open spec fn next_of(p: ParserView) -> Next {
    match p.stage {
        Stage::RequestLine | Stage::HeaderLine => Next::Line,
        Stage::Body => Next::Body(content_length(p.fields)->0),
        Stage::Complete => Next::Done,
    }
}

/// The request that a parser has read, or the error that remains: no
/// request line was read yet, or its version token names no version.
pub open spec fn finished(p: ParserView) -> Result<RequestView, ParseError> {
    if p.props.len() != 3 {
        Err(ParseError::MalformedRequestLine)
    } else {
        match version_of(p.props[2]) {
            Some(version) => Ok(
                RequestView {
                    method: p.props[0],
                    path: p.props[1],
                    version,
                    fields: p.fields,
                    body: p.body,
                    raw_request: p.raw_request,
                },
            ),
            None => Err(ParseError::UnsupportedVersion),
        }
    }
}

/// The first index at or after `from` at which `s` holds `b`, or the length
/// of `s` when there is none.
pub open spec fn index_of_byte(s: Seq<u8>, b: u8, from: int) -> int
    decreases s.len() - from,
{
    if 0 <= from < s.len() && s[from] != b {
        index_of_byte(s, b, from + 1)
    } else {
        from
    }
}

/// The length of the first line of `input`: up to and including the first
/// line feed, or all of `input` where it holds none.
pub open spec fn line_len(input: Seq<u8>) -> int {
    let i = index_of_byte(input, 10, 0);
    if 0 <= i < input.len() {
        i + 1
    } else {
        input.len() as int
    }
}

/// How far a stage is from the end of a request.
pub open spec fn stage_rank(stage: Stage) -> nat {
    match stage {
        Stage::RequestLine => 2,
        Stage::HeaderLine => 1,
        _ => 0,
    }
}

/// What a parser in state `p` makes of `input`, which holds all that is
/// left to read: it takes line after line until the header block ends, then
/// the body if one is announced and enough bytes are left.
pub open spec fn parse_from(p: ParserView, input: Seq<u8>) -> Result<RequestView, ParseError>
    decreases input.len(), stage_rank(p.stage),
{
    match p.stage {
        Stage::RequestLine | Stage::HeaderLine => {
            let n = line_len(input);
            match line_step(p, input.take(n)) {
                Ok(q) => {
                    proof {
                        lemma_line_len(input);
                        lemma_empty_line();
                    }
                    parse_from(q, input.skip(n))
                },
                Err(e) => Err(e),
            }
        },
        Stage::Body => finished(body_step(p, body_of(p.fields, input))),
        Stage::Complete => finished(p),
    }
}

/// What the parser makes of a whole request in memory.
pub open spec fn parse_request(input: Seq<u8>) -> Result<RequestView, ParseError> {
    parse_from(initial_parser(), input)
}

/// A line of bytes in memory is never longer than what is left, and is
/// empty only where nothing is left.
pub proof fn lemma_line_len(input: Seq<u8>)
    ensures
        0 <= line_len(input) <= input.len(),
        input.len() > 0 ==> line_len(input) > 0,
{
    lemma_index_of_byte(input, 10, 0);
}

/// Where the scan for `b` stops.
pub proof fn lemma_index_of_byte(s: Seq<u8>, b: u8, from: int)
    requires
        0 <= from <= s.len(),
    ensures
        from <= index_of_byte(s, b, from) <= s.len(),
    decreases s.len() - from,
{
    if from < s.len() && s[from] != b {
        lemma_index_of_byte(s, b, from + 1);
    }
}

/// No bytes are valid UTF-8 and decode to an empty text, which has no
/// tokens and is empty when trimmed.
pub proof fn lemma_empty_line()
    ensures
        valid_utf8(Seq::<u8>::empty()),
        decode_utf8(Seq::<u8>::empty()).len() == 0,
        trim(Seq::<char>::empty()).len() == 0,
        split_ascii_whitespace(Seq::<char>::empty()).len() == 0,
{
    assert(trim(Seq::<char>::empty()) =~= Seq::<char>::empty());
}

#[derive(Debug)]
pub struct HttpRequest {
    pub method: HttpMethod,
    pub path: String,
    pub version: HttpVersion,
    pub headers: Headers,
    pub body: Option<HttpBody>,
    pub raw_request: String,
}

/// The bytes of an optional body.
pub open spec fn body_view(body: Option<HttpBody>) -> Option<Seq<u8>> {
    match body {
        Some(b) => Some(b@),
        None => None,
    }
}

impl HttpRequest {
    /// Whether the request holds the values of `v`.
    pub open spec fn holds(&self, v: RequestView) -> bool {
        &&& method_is(self.method, v.method)
        &&& self.path@ == v.path
        &&& self.version == v.version
        &&& self.headers.wf()
        &&& self.headers@ == v.fields
        &&& body_view(self.body) == v.body
        &&& self.raw_request@ == v.raw_request
    }

    /// Parses a request from `input`, which holds all that the stream will
    /// ever give.
    pub fn build(input: &[u8]) -> (r: Result<Self, ParseError>)
        ensures
            match parse_request(input@) {
                Ok(v) => r is Ok && r->Ok_0.holds(v),
                Err(e) => r == Err::<Self, ParseError>(e),
            },
    {
        let mut parser = RequestParser::new();
        let mut rest: &[u8] = input;
        loop
            invariant
                parser.wf(),
                parse_from(parser@, rest@) == parse_request(input@),
            decreases rest@.len(), stage_rank(parser@.stage),
        {
            match parser.next() {
                Next::Line => {
                    let n = find_line_end(rest);
                    proof {
                        lemma_line_len(rest@);
                        lemma_empty_line();
                    }
                    let line = slice_subrange(rest, 0, n);
                    proof {
                        assert(line@ =~= rest@.take(n as int));
                    }
                    match parser.push_line(line) {
                        Ok(()) => {},
                        Err(e) => {
                            return Err(e);
                        },
                    }
                    let ghost before = rest@;
                    rest = slice_subrange(rest, n, rest.len());
                    proof {
                        assert(rest@ =~= before.skip(n as int));
                    }
                },
                Next::Body(n) => {
                    if n <= rest.len() {
                        let bytes = slice_subrange(rest, 0, n);
                        proof {
                            assert(bytes@ =~= rest@.take(n as int));
                        }
                        parser.push_body(Some(bytes));
                    } else {
                        parser.push_body(None);
                    }
                    return parser.finish();
                },
                Next::Done => {
                    return parser.finish();
                },
            }
        }
    }
}

/// The length of the first line of `input`.
pub fn find_line_end(input: &[u8]) -> (n: usize)
    ensures
        n == line_len(input@),
{
    let mut i: usize = 0;
    while i < input.len() && input[i] != 10
        invariant
            i <= input@.len(),
            index_of_byte(input@, 10, 0) == index_of_byte(input@, 10, i as int),
        decreases input@.len() - i,
    {
        i += 1;
    }
    if i < input.len() {
        i + 1
    } else {
        i
    }
}

/// Reads one line as text.
pub fn read_utf8_line(line: &[u8]) -> (r: Result<String, ParseError>)
    ensures
        match r {
            Ok(s) => valid_utf8(line@) && s@ == decode_utf8(line@),
            Err(e) => !valid_utf8(line@) && e == ParseError::InvalidUtf8,
        },
{
    match string_from_utf8(slice_to_vec(line)) {
        Some(s) => Ok(s),
        None => Err(ParseError::InvalidUtf8),
    }
}

/// Puts the header that a trimmed, non-empty line holds.
pub fn put_header_line(headers: &mut Headers, line: &str)
    requires
        old(headers).wf(),
    ensures
        final(headers).wf(),
        final(headers)@ == header_step(old(headers)@, line@),
{
    let chars = str_to_chars(line);
    let v = chars.as_slice();
    let colon = find_char(v, ':', 0);
    if colon < v.len() {
        let key = chars_to_string(v, 0, colon);
        let value = chars_to_string(v, colon + 1, v.len());
        proof {
            assert(key@ =~= line@.take(colon as int));
            assert(value@ =~= line@.skip(colon + 1));
        }
        headers.put(key.as_str(), value.as_str());
    }
}

/// A parser for one request.
#[derive(Debug)]
pub struct RequestParser {
    stage: Stage,
    props: Vec<String>,
    headers: Headers,
    body: Option<HttpBody>,
    body_len: usize,
    raw_request: String,
}

impl View for RequestParser {
    type V = ParserView;

    closed spec fn view(&self) -> ParserView {
        ParserView {
            stage: self.stage,
            props: strings_view(self.props@),
            fields: self.headers@,
            body: body_view(self.body),
            raw_request: self.raw_request@,
        }
    }
}

impl RequestParser {
    /// The invariant of a parser.
    pub closed spec fn wf(&self) -> bool {
        &&& self.headers.wf()
        &&& !(self.stage is RequestLine) ==> self.props@.len() == 3
        &&& self.stage is Body ==> content_length(self.headers@) == Some(self.body_len)
    }

    pub fn new() -> (p: Self)
        ensures
            p.wf(),
            p@ == initial_parser(),
    {
        let p = Self {
            stage: Stage::RequestLine,
            props: Vec::new(),
            headers: Headers::new(),
            body: None,
            body_len: 0,
            raw_request: String::new(),
        };
        proof {
            assert(p@.props =~= Seq::empty());
            assert(p@.fields =~= Seq::empty());
        }
        p
    }

    /// What has to be handed over next.
    pub fn next(&self) -> (n: Next)
        requires
            self.wf(),
        ensures
            n == next_of(self@),
    {
        match self.stage {
            Stage::RequestLine => Next::Line,
            Stage::HeaderLine => Next::Line,
            Stage::Body => Next::Body(self.body_len),
            Stage::Complete => Next::Done,
        }
    }

    /// Takes the next line of the request head. An error leaves the parser
    /// as it was.
    pub fn push_line(&mut self, line: &[u8]) -> (r: Result<(), ParseError>)
        requires
            old(self).wf(),
        ensures
            final(self).wf(),
            match line_step(old(self)@, line@) {
                Ok(q) => r is Ok && final(self)@ == q,
                Err(e) => r == Err::<(), ParseError>(e) && final(self)@ == old(self)@,
            },
    {
        let text = match read_utf8_line(line) {
            Ok(s) => s,
            Err(e) => {
                return Err(e);
            },
        };
        match self.stage {
            Stage::RequestLine => {
                let props = ascii_tokens(trimmed(text.as_str()).as_str());
                if props.len() != 3 {
                    return Err(ParseError::MalformedRequestLine);
                }
                self.props = props;
                self.raw_request = text;
                self.stage = Stage::HeaderLine;
            },
            Stage::HeaderLine => {
                self.raw_request.append(text.as_str());
                let header_line = trimmed(text.as_str());
                if header_line.as_str().is_empty() {
                    match HttpBody::expected_len(&self.headers) {
                        Some(n) => {
                            self.body_len = n;
                            self.stage = Stage::Body;
                        },
                        None => {
                            self.stage = Stage::Complete;
                        },
                    }
                } else {
                    put_header_line(&mut self.headers, header_line.as_str());
                }
            },
            _ => {},
        }
        Ok(())
    }

    /// Takes the body, or word that it could not be read.
    pub fn push_body(&mut self, bytes: Option<&[u8]>)
        requires
            old(self).wf(),
        ensures
            final(self).wf(),
            final(self)@ == body_step(
                old(self)@,
                match bytes {
                    Some(b) => Some(b@),
                    None => None,
                },
            ),
    {
        match self.stage {
            Stage::Body => {
                match bytes {
                    Some(b) => {
                        let body = HttpBody::new(b);
                        self.raw_request.append(body.as_str_lossy().as_str());
                        self.body = Some(body);
                    },
                    None => {
                        self.body = None;
                    },
                }
                self.stage = Stage::Complete;
            },
            _ => {},
        }
    }

    /// The request that was read.
    pub fn finish(self) -> (r: Result<HttpRequest, ParseError>)
        requires
            self.wf(),
        ensures
            match finished(self@) {
                Ok(v) => r is Ok && r->Ok_0.holds(v),
                Err(e) => r == Err::<HttpRequest, ParseError>(e),
            },
    {
        if self.props.len() != 3 {
            return Err(ParseError::MalformedRequestLine);
        }
        let method = HttpMethod::new(self.props[0].as_str());
        let path = self.props[1].clone();
        let version = match HttpVersion::build(self.props[2].as_str()) {
            Ok(v) => v,
            Err(e) => {
                return Err(e);
            },
        };
        Ok(
            HttpRequest {
                method,
                path,
                version,
                headers: self.headers,
                body: self.body,
                raw_request: self.raw_request,
            },
        )
    }
}

} // verus!
