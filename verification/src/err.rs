//! The library's error type and how each failure surfaces.
//!
//! Transport failures close the engine and are replayed to every handle;
//! malformed peer data surfaces as a parse error; caller misuse fails fast
//! with a static message.

use vstd::prelude::*;

verus! {

/// Which failure an `Error` value carries, without its payload.
#[derive(Clone, Copy, PartialEq, Eq, Structural, Debug)]
pub enum ErrorKind {
    BadStatus,
    BadHeader,
    BadUrl,
    TooManyRedirects,
    UnknownScheme,
    Io,
    Static,
    Message,
    RemoteClosed,
}

/// A failure of the client core. Payload-carrying variants hold the detail
/// a caller may show; `Static` marks caller misuse detected at the call site.
#[derive(Debug)]
pub enum Error {
    BadStatus,
    BadHeader,
    BadUrl(String),
    TooManyRedirects,
    UnknownScheme(String),
    Io(String),
    Static(&'static str),
    Message(String),
    RemoteClosed,
}

impl Error {
    pub open spec fn kind(&self) -> ErrorKind {
        match self {
            Error::BadStatus => ErrorKind::BadStatus,
            Error::BadHeader => ErrorKind::BadHeader,
            Error::BadUrl(_) => ErrorKind::BadUrl,
            Error::TooManyRedirects => ErrorKind::TooManyRedirects,
            Error::UnknownScheme(_) => ErrorKind::UnknownScheme,
            Error::Io(_) => ErrorKind::Io,
            Error::Static(_) => ErrorKind::Static,
            Error::Message(_) => ErrorKind::Message,
            Error::RemoteClosed => ErrorKind::RemoteClosed,
        }
    }

    /// The payload text of this error, empty for payload-free variants.
    pub open spec fn msg_view(&self) -> Seq<char> {
        match self {
            Error::BadUrl(s) => s@,
            Error::UnknownScheme(s) => s@,
            Error::Io(s) => s@,
            Error::Static(s) => s@,
            Error::Message(s) => s@,
            _ => Seq::<char>::empty(),
        }
    }

    pub fn get_kind(&self) -> (r: ErrorKind)
        ensures
            r == self.kind(),
    {
        match self {
            Error::BadStatus => ErrorKind::BadStatus,
            Error::BadHeader => ErrorKind::BadHeader,
            Error::BadUrl(_) => ErrorKind::BadUrl,
            Error::TooManyRedirects => ErrorKind::TooManyRedirects,
            Error::UnknownScheme(_) => ErrorKind::UnknownScheme,
            Error::Io(_) => ErrorKind::Io,
            Error::Static(_) => ErrorKind::Static,
            Error::Message(_) => ErrorKind::Message,
            Error::RemoteClosed => ErrorKind::RemoteClosed,
        }
    }

    /// The synthetic status code this failure maps to: caller-side faults
    /// (a bad URL, an unknown scheme) map to 400, everything else to 500.
    pub open spec fn spec_status(&self) -> u16 {
        match self.kind() {
            ErrorKind::BadUrl => 400u16,
            ErrorKind::UnknownScheme => 400u16,
            ErrorKind::Static => 400u16,
            _ => 500u16,
        }
    }

    pub fn status(&self) -> (r: u16)
        ensures
            r == self.spec_status(),
    {
        match self.get_kind() {
            ErrorKind::BadUrl => 400,
            ErrorKind::UnknownScheme => 400,
            ErrorKind::Static => 400,
            _ => 500,
        }
    }

    /// A short fixed name for the failure, used as synthetic status text.
    pub fn status_text(&self) -> (r: &'static str)
        ensures
            self.kind() == ErrorKind::BadStatus ==> r@ == "Bad Status"@,
            self.kind() == ErrorKind::BadHeader ==> r@ == "Bad Header"@,
            self.kind() == ErrorKind::BadUrl ==> r@ == "Bad URL"@,
            self.kind() == ErrorKind::TooManyRedirects ==> r@ == "Too Many Redirects"@,
            self.kind() == ErrorKind::UnknownScheme ==> r@ == "Unknown Scheme"@,
            self.kind() == ErrorKind::Io ==> r@ == "Network Error"@,
            self.kind() == ErrorKind::Static ==> r@ == "Bad Request"@,
            self.kind() == ErrorKind::Message ==> r@ == "Network Error"@,
            self.kind() == ErrorKind::RemoteClosed ==> r@ == "Connection Closed"@,
    {
        match self {
            Error::BadStatus => "Bad Status",
            Error::BadHeader => "Bad Header",
            Error::BadUrl(_) => "Bad URL",
            Error::TooManyRedirects => "Too Many Redirects",
            Error::UnknownScheme(_) => "Unknown Scheme",
            Error::Io(_) => "Network Error",
            Error::Static(_) => "Bad Request",
            Error::Message(_) => "Network Error",
            Error::RemoteClosed => "Connection Closed",
        }
    }

    /// The payload text, empty for payload-free variants.
    pub fn message(&self) -> (r: String)
        ensures
            r@ == self.msg_view(),
    {
        match self {
            Error::BadUrl(s) => s.clone(),
            Error::UnknownScheme(s) => s.clone(),
            Error::Io(s) => s.clone(),
            Error::Static(s) => String::from_str(s),
            Error::Message(s) => s.clone(),
            _ => String::new(),
        }
    }
}

} // verus!
