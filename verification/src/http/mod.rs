//! HTTP/1.x messages: header fields, status codes, request parsing and
//! response serialization.

use crate::text::str_eq;
use vstd::prelude::*;

pub mod body;
pub mod headers;
pub mod request;
pub mod response;
pub mod route;
pub mod wire;

pub use body::HttpBody;
pub use headers::Headers;
pub use request::HttpRequest;
pub use response::HttpResponse;

verus! {

/// Why a request could not be parsed.
#[derive(Debug, Clone, Copy, PartialEq, Eq, Structural)]
pub enum ParseError {
    /// The request line does not consist of exactly three tokens.
    MalformedRequestLine,
    /// The version token is neither `HTTP/1.0` nor `HTTP/1.1`.
    UnsupportedVersion,
    /// A line of the request head is not valid UTF-8.
    InvalidUtf8,
}

impl ParseError {
    /// A description of the error for a log or a terminal.
    pub fn message(&self) -> (m: &'static str)
        ensures
            m@ == match self {
                ParseError::MalformedRequestLine => "Malformed first request line"@,
                ParseError::UnsupportedVersion => "Unsupported HTTP version"@,
                ParseError::InvalidUtf8 => "Unexpected non UTF-8 string"@,
            },
    {
        match self {
            ParseError::MalformedRequestLine => "Malformed first request line",
            ParseError::UnsupportedVersion => "Unsupported HTTP version",
            ParseError::InvalidUtf8 => "Unexpected non UTF-8 string",
        }
    }
}

#[derive(Debug, Clone, Copy, PartialEq, Eq, Structural)]
pub enum HttpVersion {
    One,
    OnePointOne,
}

#[derive(Debug, PartialEq, Eq)]
pub enum HttpMethod {
    GET,
    POST,
    PUT,
    DELETE,
    HEAD,
    CONNECT,
    OPTIONS,
    TRACE,
    PATCH,
    Custom { name: String },
}

#[derive(Debug, PartialEq, Eq)]
pub enum HttpStatus {
    // Informational
    Continue,
    SwitchingProtocols,
    Processing,

    // Success
    OK,
    Created,
    Accepted,
    NonAuthoritativeInformation,
    NoContent,
    ResetContent,
    PartialContent,
    MultiStatus,
    AlreadyReported,
    IMUsed,

    // Redirection
    MultipleChoices,
    MovedPermanently,
    Found,
    SeeOther,
    NotModified,
    UseProxy,
    SwitchProxy,
    TemporaryRedirect,
    PermanentRedirect,

    // Client errors
    BadRequest,
    Unauthorized,
    PaymentRequired,
    Forbidden,
    NotFound,
    MethodNotAllowed,
    NotAcceptable,
    ProxyAuthenticationRequired,
    RequestTimeout,
    Conflict,
    Gone,
    LengthRequired,
    PreconditionFailed,
    PayloadTooLarge,
    URITooLong,
    UnsupportedMediaType,
    RangeNotSatisfiable,
    ExpectationFailed,
    ImATeapot,
    MisdirectedRequest,
    UnprocessableEntity,
    Locked,
    FailedDependency,
    TooEarly,
    UpgradeRequired,
    PreconditionRequired,
    TooManyRequests,
    RequestHeaderFieldsTooLarge,
    UnavailableForLegalReasons,

    // Server errors
    InternalServerError,
    NotImplemented,
    BadGateway,
    ServiceUnavailable,
    GatewayTimeout,
    HTTPVersionNotSupported,
    VariantAlsoNegotiates,
    InsufficientStorage,
    LoopDetected,
    NotExtended,
    NetworkAuthenticationRequired,
    Custom { code: u16, reason_phrase: String },
}

/// The version that a version token names.
pub open spec fn version_of(token: Seq<char>) -> Option<HttpVersion> {
    if token == "HTTP/1.0"@ {
        Some(HttpVersion::One)
    } else if token == "HTTP/1.1"@ {
        Some(HttpVersion::OnePointOne)
    } else {
        None
    }
}

impl HttpVersion {
    /// The token that names the version on the wire.
    pub open spec fn token(&self) -> Seq<char> {
        match self {
            HttpVersion::One => "HTTP/1.0"@,
            HttpVersion::OnePointOne => "HTTP/1.1"@,
        }
    }

    pub fn build(string: &str) -> (r: Result<Self, ParseError>)
        ensures
            r == match version_of(string@) {
                Some(v) => Ok::<HttpVersion, ParseError>(v),
                None => Err(ParseError::UnsupportedVersion),
            },
    {
        if str_eq(string, "HTTP/1.0") {
            Ok(Self::One)
        } else if str_eq(string, "HTTP/1.1") {
            Ok(Self::OnePointOne)
        } else {
            Err(ParseError::UnsupportedVersion)
        }
    }

    /// The token that names the version on the wire.
    pub fn as_str(&self) -> (s: &'static str)
        ensures
            s@ == self.token(),
    {
        match self {
            HttpVersion::One => "HTTP/1.0",
            HttpVersion::OnePointOne => "HTTP/1.1",
        }
    }

    /// The token that names the version on the wire, as a new string.
    pub fn to_string(&self) -> (s: String)
        ensures
            s@ == self.token(),
    {
        self.as_str().to_owned()
    }
}

/// The method that a method token names: one of the nine standard methods
/// where the token is its name in capitals, else a custom method that
/// carries the token as it is.
pub open spec fn method_is(m: HttpMethod, token: Seq<char>) -> bool {
    if token == "GET"@ {
        m is GET
    } else if token == "POST"@ {
        m is POST
    } else if token == "PUT"@ {
        m is PUT
    } else if token == "DELETE"@ {
        m is DELETE
    } else if token == "HEAD"@ {
        m is HEAD
    } else if token == "CONNECT"@ {
        m is CONNECT
    } else if token == "OPTIONS"@ {
        m is OPTIONS
    } else if token == "TRACE"@ {
        m is TRACE
    } else if token == "PATCH"@ {
        m is PATCH
    } else {
        m matches HttpMethod::Custom { name } && name@ == token
    }
}

impl HttpMethod {
    pub fn new(method_name: &str) -> (m: Self)
        ensures
            method_is(m, method_name@),
    {
        if str_eq(method_name, "GET") {
            HttpMethod::GET
        } else if str_eq(method_name, "POST") {
            HttpMethod::POST
        } else if str_eq(method_name, "PUT") {
            HttpMethod::PUT
        } else if str_eq(method_name, "DELETE") {
            HttpMethod::DELETE
        } else if str_eq(method_name, "HEAD") {
            HttpMethod::HEAD
        } else if str_eq(method_name, "CONNECT") {
            HttpMethod::CONNECT
        } else if str_eq(method_name, "OPTIONS") {
            HttpMethod::OPTIONS
        } else if str_eq(method_name, "TRACE") {
            HttpMethod::TRACE
        } else if str_eq(method_name, "PATCH") {
            HttpMethod::PATCH
        } else {
            HttpMethod::Custom { name: method_name.to_owned() }
        }
    }
}

impl HttpStatus {
    /// The numeric code and the reason phrase of each status.
    pub open spec fn spec_props(&self) -> (u16, Seq<char>) {
        match self {
            Self::Continue => (100u16, "Continue"@),
            Self::SwitchingProtocols => (101u16, "Switching Protocols"@),
            Self::Processing => (102u16, "Processing"@),
            Self::OK => (200u16, "OK"@),
            Self::Created => (201u16, "Created"@),
            Self::Accepted => (202u16, "Accepted"@),
            Self::NonAuthoritativeInformation => (203u16, "Non-Authoritative Information"@),
            Self::NoContent => (204u16, "No Content"@),
            Self::ResetContent => (205u16, "Reset Content"@),
            Self::PartialContent => (206u16, "Partial Content"@),
            Self::MultiStatus => (207u16, "Multi-Status"@),
            Self::AlreadyReported => (208u16, "Already Reported"@),
            Self::IMUsed => (226u16, "IM Used"@),
            Self::MultipleChoices => (300u16, "Multiple Choices"@),
            Self::MovedPermanently => (301u16, "Moved Permanently"@),
            Self::Found => (302u16, "Found"@),
            Self::SeeOther => (303u16, "See Other"@),
            Self::NotModified => (304u16, "Not Modified"@),
            Self::UseProxy => (305u16, "Use Proxy"@),
            Self::SwitchProxy => (306u16, "Switch Proxy"@),
            Self::TemporaryRedirect => (307u16, "Temporary Redirect"@),
            Self::PermanentRedirect => (308u16, "Permanent Redirect"@),
            Self::BadRequest => (400u16, "Bad Request"@),
            Self::Unauthorized => (401u16, "Unauthorized"@),
            Self::PaymentRequired => (402u16, "Payment Required"@),
            Self::Forbidden => (403u16, "Forbidden"@),
            Self::NotFound => (404u16, "Not Found"@),
            Self::MethodNotAllowed => (405u16, "Method Not Allowed"@),
            Self::NotAcceptable => (406u16, "Not Acceptable"@),
            Self::ProxyAuthenticationRequired => (407u16, "Proxy Authentication Required"@),
            Self::RequestTimeout => (408u16, "Request Timeout"@),
            Self::Conflict => (409u16, "Conflict"@),
            Self::Gone => (410u16, "Gone"@),
            Self::LengthRequired => (411u16, "Length Required"@),
            Self::PreconditionFailed => (412u16, "Precondition Failed"@),
            Self::PayloadTooLarge => (413u16, "Payload Too Large"@),
            Self::URITooLong => (414u16, "URI Too Long"@),
            Self::UnsupportedMediaType => (415u16, "Unsupported Media Type"@),
            Self::RangeNotSatisfiable => (416u16, "Range Not Satisfiable"@),
            Self::ExpectationFailed => (417u16, "Expectation Failed"@),
            Self::ImATeapot => (418u16, "I'm a Teapot"@),
            Self::MisdirectedRequest => (421u16, "Misdirected Request"@),
            Self::UnprocessableEntity => (422u16, "Unprocessable Entity"@),
            Self::Locked => (423u16, "Locked"@),
            Self::FailedDependency => (424u16, "Failed Dependency"@),
            Self::TooEarly => (425u16, "Too Early"@),
            Self::UpgradeRequired => (426u16, "Upgrade Required"@),
            Self::PreconditionRequired => (428u16, "Precondition Required"@),
            Self::TooManyRequests => (429u16, "Too Many Requests"@),
            Self::RequestHeaderFieldsTooLarge => (431u16, "Request Header Fields Too Large"@),
            Self::UnavailableForLegalReasons => (451u16, "Unavailable For Legal Reasons"@),
            Self::InternalServerError => (500u16, "Internal Server Error"@),
            Self::NotImplemented => (501u16, "Not Implemented"@),
            Self::BadGateway => (502u16, "Bad Gateway"@),
            Self::ServiceUnavailable => (503u16, "Service Unavailable"@),
            Self::GatewayTimeout => (504u16, "Gateway Timeout"@),
            Self::HTTPVersionNotSupported => (505u16, "HTTP Version Not Supported"@),
            Self::VariantAlsoNegotiates => (506u16, "Variant Also Negotiates"@),
            Self::InsufficientStorage => (507u16, "Insufficient Storage"@),
            Self::LoopDetected => (508u16, "Loop Detected"@),
            Self::NotExtended => (510u16, "Not Extended"@),
            Self::NetworkAuthenticationRequired => (511u16, "Network Authentication Required"@),
            Self::Custom { code, reason_phrase } => (*code, reason_phrase@),
        }
    }

    pub fn reason_phrase(&self) -> (r: &str)
        ensures
            r@ == self.spec_props().1,
    {
        self.props().1
    }

    pub fn code(&self) -> (c: u16)
        ensures
            c == self.spec_props().0,
    {
        self.props().0
    }

    pub fn props(&self) -> (r: (u16, &str))
        ensures
            r.0 == self.spec_props().0,
            r.1@ == self.spec_props().1,
    {
        match self {
            Self::Continue => (100, "Continue"),
            Self::SwitchingProtocols => (101, "Switching Protocols"),
            Self::Processing => (102, "Processing"),
            Self::OK => (200, "OK"),
            Self::Created => (201, "Created"),
            Self::Accepted => (202, "Accepted"),
            Self::NonAuthoritativeInformation => (203, "Non-Authoritative Information"),
            Self::NoContent => (204, "No Content"),
            Self::ResetContent => (205, "Reset Content"),
            Self::PartialContent => (206, "Partial Content"),
            Self::MultiStatus => (207, "Multi-Status"),
            Self::AlreadyReported => (208, "Already Reported"),
            Self::IMUsed => (226, "IM Used"),
            Self::MultipleChoices => (300, "Multiple Choices"),
            Self::MovedPermanently => (301, "Moved Permanently"),
            Self::Found => (302, "Found"),
            Self::SeeOther => (303, "See Other"),
            Self::NotModified => (304, "Not Modified"),
            Self::UseProxy => (305, "Use Proxy"),
            Self::SwitchProxy => (306, "Switch Proxy"),
            Self::TemporaryRedirect => (307, "Temporary Redirect"),
            Self::PermanentRedirect => (308, "Permanent Redirect"),
            Self::BadRequest => (400, "Bad Request"),
            Self::Unauthorized => (401, "Unauthorized"),
            Self::PaymentRequired => (402, "Payment Required"),
            Self::Forbidden => (403, "Forbidden"),
            Self::NotFound => (404, "Not Found"),
            Self::MethodNotAllowed => (405, "Method Not Allowed"),
            Self::NotAcceptable => (406, "Not Acceptable"),
            Self::ProxyAuthenticationRequired => (407, "Proxy Authentication Required"),
            Self::RequestTimeout => (408, "Request Timeout"),
            Self::Conflict => (409, "Conflict"),
            Self::Gone => (410, "Gone"),
            Self::LengthRequired => (411, "Length Required"),
            Self::PreconditionFailed => (412, "Precondition Failed"),
            Self::PayloadTooLarge => (413, "Payload Too Large"),
            Self::URITooLong => (414, "URI Too Long"),
            Self::UnsupportedMediaType => (415, "Unsupported Media Type"),
            Self::RangeNotSatisfiable => (416, "Range Not Satisfiable"),
            Self::ExpectationFailed => (417, "Expectation Failed"),
            Self::ImATeapot => (418, "I'm a Teapot"),
            Self::MisdirectedRequest => (421, "Misdirected Request"),
            Self::UnprocessableEntity => (422, "Unprocessable Entity"),
            Self::Locked => (423, "Locked"),
            Self::FailedDependency => (424, "Failed Dependency"),
            Self::TooEarly => (425, "Too Early"),
            Self::UpgradeRequired => (426, "Upgrade Required"),
            Self::PreconditionRequired => (428, "Precondition Required"),
            Self::TooManyRequests => (429, "Too Many Requests"),
            Self::RequestHeaderFieldsTooLarge => (431, "Request Header Fields Too Large"),
            Self::UnavailableForLegalReasons => (451, "Unavailable For Legal Reasons"),
            Self::InternalServerError => (500, "Internal Server Error"),
            Self::NotImplemented => (501, "Not Implemented"),
            Self::BadGateway => (502, "Bad Gateway"),
            Self::ServiceUnavailable => (503, "Service Unavailable"),
            Self::GatewayTimeout => (504, "Gateway Timeout"),
            Self::HTTPVersionNotSupported => (505, "HTTP Version Not Supported"),
            Self::VariantAlsoNegotiates => (506, "Variant Also Negotiates"),
            Self::InsufficientStorage => (507, "Insufficient Storage"),
            Self::LoopDetected => (508, "Loop Detected"),
            Self::NotExtended => (510, "Not Extended"),
            Self::NetworkAuthenticationRequired => (511, "Network Authentication Required"),
            Self::Custom { code, reason_phrase } => (*code, reason_phrase.as_str()),
        }
    }
}

} // verus!
