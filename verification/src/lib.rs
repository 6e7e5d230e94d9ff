//! A URI parser: a hand-written lexer turns the input into a flat token
//! stream, and a single-pass parser walks that stream to assemble the
//! scheme, authority, path, query and fragment components.
//!
//! The whole input is ASCII case-folded once, up front, so every span a
//! parsed [`Uri`] returns indexes the lower-cased text; scheme and host are
//! thereby case-insensitive, and path, query and fragment come back folded
//! too.
use vstd::prelude::*;

pub mod error;
pub mod laws;
pub mod model;
pub mod parsing;

use crate::error::Error;
use crate::model::{
    authority_ok, digits_value, fold_seq, span_in, span_text, AuthorityModel, ErrorModel,
    SpanModel, UriModel,
};
use crate::parsing::lexer::token::span::Span;
use crate::parsing::{parse_uri, UriParser};
use vstd::string::StrSliceExecFns;
use vstd::utf8::is_ascii_chars;

verus! {

/// The `userinfo@host:port` spans of an authority.  The port's numeric
/// value is validated and remembered at parse time.
#[derive(Clone, Debug, Eq, PartialEq)]
pub(crate) struct Authority {
    pub userinfo: Option<Span>,
    pub host: Span,
    pub port: Option<Span>,
    pub port_value: Option<u16>,
}

impl View for Authority {
    type V = AuthorityModel;

    closed spec fn view(&self) -> AuthorityModel {
        AuthorityModel {
            userinfo: self.userinfo.deep_view(),
            host: self.host@,
            port: self.port.deep_view(),
        }
    }
}

impl DeepView for Authority {
    type V = AuthorityModel;

    open spec fn deep_view(&self) -> AuthorityModel {
        self.view()
    }
}

impl Authority {
    /// Put an authority together.  Only the parser calls this.
    pub(crate) fn new(
        userinfo: Option<Span>,
        host: Span,
        port: Option<Span>,
        port_value: Option<u16>,
    ) -> (a: Authority)
        ensures
            a@ == (AuthorityModel {
                userinfo: userinfo.deep_view(),
                host: host@,
                port: port.deep_view(),
            }),
            a.port_value == port_value,
    {
        Authority { userinfo, host, port, port_value }
    }
}

/// A parsed URI: the case-folded input text plus the spans of its
/// components.  See RFC3986 for the grammar this follows.
#[derive(Clone, Debug, Eq, PartialEq)]
pub struct Uri {
    source: String,
    scheme: Option<Span>,
    authority: Option<Authority>,
    path: Span,
    query: Option<Span>,
    fragment: Option<Span>,
}

impl View for Uri {
    type V = UriModel;

    closed spec fn view(&self) -> UriModel {
        UriModel {
            scheme: self.scheme.deep_view(),
            authority: self.authority.deep_view(),
            path: self.path@,
            query: self.query.deep_view(),
            fragment: self.fragment.deep_view(),
        }
    }
}

impl Uri {
    /// The case-folded text that every span of this URI indexes.
    pub closed spec fn text(&self) -> Seq<char> {
        self.source@
    }

    /// The stored text is ASCII and every component span lies inside it.
    /// Holds of every URI that `parse` returns.
    pub closed spec fn wf(self) -> bool {
        &&& is_ascii_chars(self.source@)
        &&& self.source@.len() <= usize::MAX
        &&& span_in(self.source@, self.path@)
        &&& match self.scheme {
            Some(sp) => span_in(self.source@, sp@),
            None => true,
        }
        &&& match self.query {
            Some(sp) => span_in(self.source@, sp@),
            None => true,
        }
        &&& match self.fragment {
            Some(sp) => span_in(self.source@, sp@),
            None => true,
        }
        &&& match self.authority {
            Some(a) => authority_ok(self.source@, a@, a.port_value),
            None => true,
        }
    }

    /// Put a parsed URI together.  Only the parser calls this.
    pub(crate) fn assemble(
        source: String,
        scheme: Option<Span>,
        authority: Option<Authority>,
        path: Span,
        query: Option<Span>,
        fragment: Option<Span>,
    ) -> (u: Uri)
        requires
            is_ascii_chars(source@),
            source@.len() <= usize::MAX,
            span_in(source@, path@),
            (scheme matches Some(sp) ==> span_in(source@, sp@)),
            (query matches Some(sp) ==> span_in(source@, sp@)),
            (fragment matches Some(sp) ==> span_in(source@, sp@)),
            (authority matches Some(a) ==> authority_ok(source@, a@, a.port_value)),
        ensures
            u.wf(),
            u.text() == source@,
            u@ == (UriModel {
                scheme: scheme.deep_view(),
                authority: authority.deep_view(),
                path: path@,
                query: query.deep_view(),
                fragment: fragment.deep_view(),
            }),
    {
        Uri { source, scheme, authority, path, query, fragment }
    }

    /// Parse a URI out of `input`.
    ///
    /// The text is ASCII case-folded first; the result is exactly what the
    /// `parse_uri` specification says of that folded text, both on success
    /// and in the error returned.
    pub fn parse(input: &str) -> (r: Result<Uri, Error>)
        ensures
            match r {
                Ok(u) => parse_uri(fold_seq(input@)) == Ok::<UriModel, ErrorModel>(u@) && u.text()
                    == fold_seq(input@) && u.wf(),
                Err(e) => parse_uri(fold_seq(input@)) == Err::<UriModel, ErrorModel>(e@),
            },
    {
        match UriParser::new(input) {
            Err(u) => Err(Error::UnexpectedToken(u)),
            Ok(p) => p.parse(),
        }
    }

    /// The scheme text, when a scheme was recognized.
    pub fn scheme(&self) -> (r: Option<&str>)
        requires
            self.wf(),
        ensures
            match self@.scheme {
                Some(sp) => r matches Some(t) && t@ == span_text(self.text(), sp),
                None => r is None,
            },
    {
        match &self.scheme {
            Some(sp) => Some(self.source.as_str().substring_ascii(sp.start(), sp.end())),
            None => None,
        }
    }

    /// The userinfo text, when an authority with userinfo was recognized.
    pub fn userinfo(&self) -> (r: Option<&str>)
        requires
            self.wf(),
        ensures
            match self@.authority {
                Some(a) => match a.userinfo {
                    Some(sp) => r matches Some(t) && t@ == span_text(self.text(), sp),
                    None => r is None,
                },
                None => r is None,
            },
    {
        match &self.authority {
            Some(a) => match &a.userinfo {
                Some(sp) => Some(self.source.as_str().substring_ascii(sp.start(), sp.end())),
                None => None,
            },
            None => None,
        }
    }

    /// The host text, when an authority was recognized.
    pub fn host(&self) -> (r: Option<&str>)
        requires
            self.wf(),
        ensures
            match self@.authority {
                Some(a) => r matches Some(t) && t@ == span_text(self.text(), a.host),
                None => r is None,
            },
    {
        match &self.authority {
            Some(a) => Some(self.source.as_str().substring_ascii(a.host.start(), a.host.end())),
            None => None,
        }
    }

    /// The port digits as text, when a port was recognized.
    pub fn port_str(&self) -> (r: Option<&str>)
        requires
            self.wf(),
        ensures
            match self@.authority {
                Some(a) => match a.port {
                    Some(sp) => r matches Some(t) && t@ == span_text(self.text(), sp),
                    None => r is None,
                },
                None => r is None,
            },
    {
        match &self.authority {
            Some(a) => match &a.port {
                Some(sp) => Some(self.source.as_str().substring_ascii(sp.start(), sp.end())),
                None => None,
            },
            None => None,
        }
    }

    /// The port number, when a port was recognized: the value its decimal
    /// digits spell.
    pub fn port(&self) -> (r: Option<u16>)
        requires
            self.wf(),
        ensures
            match self@.authority {
                Some(a) => match a.port {
                    Some(sp) => r matches Some(v) && v == digits_value(
                        span_text(self.text(), sp),
                    ),
                    None => r is None,
                },
                None => r is None,
            },
    {
        match &self.authority {
            Some(a) => a.port_value,
            None => None,
        }
    }

    /// The path text; empty when no path tokens were consumed.
    pub fn path(&self) -> (r: &str)
        requires
            self.wf(),
        ensures
            r@ == span_text(self.text(), self@.path),
    {
        self.source.as_str().substring_ascii(self.path.start(), self.path.end())
    }

    /// The query text, when a query was recognized.
    pub fn query(&self) -> (r: Option<&str>)
        requires
            self.wf(),
        ensures
            match self@.query {
                Some(sp) => r matches Some(t) && t@ == span_text(self.text(), sp),
                None => r is None,
            },
    {
        match &self.query {
            Some(sp) => Some(self.source.as_str().substring_ascii(sp.start(), sp.end())),
            None => None,
        }
    }

    /// The fragment text, when a fragment was recognized.
    pub fn fragment(&self) -> (r: Option<&str>)
        requires
            self.wf(),
        ensures
            match self@.fragment {
                Some(sp) => r matches Some(t) && t@ == span_text(self.text(), sp),
                None => r is None,
            },
    {
        match &self.fragment {
            Some(sp) => Some(self.source.as_str().substring_ascii(sp.start(), sp.end())),
            None => None,
        }
    }
}

impl std::str::FromStr for Uri {
    type Err = Error;

    fn from_str(s: &str) -> Result<Self, Self::Err> {
        Uri::parse(s)
    }
}

} // verus!
