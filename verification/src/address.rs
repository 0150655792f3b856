//! Web addresses, as the `url` crate parses them.

use vstd::prelude::*;
use vstd::utf8::is_ascii_chars;
use crate::text::text_view;

verus! {

/// What an address says of itself.
#[derive(Debug, PartialEq, Eq)]
struct UrlParts {
    text: String,
    scheme: String,
    host: Option<String>,
    path: String,
}

/// A parsed address.
#[derive(Debug, PartialEq, Eq)]
pub struct SiteUrl {
    parts: UrlParts,
}

/// The parts of a [`SiteUrl`].
#[verifier::ext_equal]
pub struct SiteUrlView {
    /// The whole address.
    pub text: Seq<char>,
    /// The scheme, such as `https`.
    pub scheme: Seq<char>,
    /// The host, where the address has one.
    pub host: Option<Seq<char>>,
    /// The path, with escapes.
    pub path: Seq<char>,
}

impl UrlParts {
    spec fn values(self) -> SiteUrlView {
        SiteUrlView {
            text: self.text@,
            scheme: self.scheme@,
            host: text_view(self.host),
            path: self.path@,
        }
    }
}

impl View for SiteUrl {
    type V = SiteUrlView;

    closed spec fn view(&self) -> SiteUrlView {
        self.parts.values()
    }
}

impl SiteUrlView {
    /// The path of an address is ASCII text.
    pub open spec fn well_formed(self) -> bool {
        is_ascii_chars(self.path)
    }
}

/// The parts of an address, where there is one.
pub open spec fn url_view(u: Option<SiteUrl>) -> Option<SiteUrlView> {
    match u {
        Some(u) => Some(u@),
        None => None,
    }
}

spec fn parts_view(p: Option<UrlParts>) -> Option<SiteUrlView> {
    match p {
        Some(p) => Some(p.values()),
        None => None,
    }
}

/// The address that `text` denotes.
pub uninterp spec fn parsed_url(text: Seq<char>) -> Option<SiteUrlView>;

/// The address that `reference` denotes on the page with address `base`.
pub uninterp spec fn joined_url(base: Seq<char>, reference: Seq<char>) -> Option<SiteUrlView>;

/// The address without its fragment.
pub uninterp spec fn unfragmented_url(text: Seq<char>) -> Seq<char>;

/// `url::Url::parse`: the outcome depends on the text alone. A path is
/// percent-encoded and thus ASCII.
#[verifier::external_body]
fn parse_url(text: &str) -> (r: Option<UrlParts>)
    ensures
        parts_view(r) == parsed_url(text@),
        r matches Some(p) ==> p.values().well_formed(),
{
    let url = url::Url::parse(text).ok()?;
    Some(UrlParts {
        text: url.as_str().to_string(),
        scheme: url.scheme().to_string(),
        host: url.host_str().map(|h| h.to_string()),
        path: url.path().to_string(),
    })
}

/// `url::Url::join` on the address with text `base`: the outcome depends on
/// the two texts alone. A path is percent-encoded and thus ASCII.
#[verifier::external_body]
fn join_url(base: &str, reference: &str) -> (r: Option<UrlParts>)
    ensures
        parts_view(r) == joined_url(base@, reference@),
        r matches Some(p) ==> p.values().well_formed(),
{
    let url = url::Url::parse(base).ok()?.join(reference).ok()?;
    Some(UrlParts {
        text: url.as_str().to_string(),
        scheme: url.scheme().to_string(),
        host: url.host_str().map(|h| h.to_string()),
        path: url.path().to_string(),
    })
}

/// `url::Url::set_fragment` with no fragment, on the address with text
/// `text`: what is left depends on the text alone.
#[verifier::external_body]
fn drop_fragment(text: &str) -> (r: String)
    ensures
        r@ == unfragmented_url(text@),
{
    match url::Url::parse(text) {
        Ok(mut url) => {
            url.set_fragment(None);
            url.to_string()
        },
        Err(_) => text.to_string(),
    }
}

impl SiteUrl {
    #[verifier::type_invariant]
    closed spec fn inv(self) -> bool {
        self@.well_formed()
    }

    /// Parses an absolute address.
    pub fn parse(text: &str) -> (r: Option<SiteUrl>)
        ensures
            url_view(r) == parsed_url(text@),
            r matches Some(u) ==> u@.well_formed(),
    {
        match parse_url(text) {
            Some(parts) => Some(SiteUrl { parts }),
            None => None,
        }
    }

    /// Resolves a reference found on the page with this address.
    pub fn join(&self, reference: &str) -> (r: Option<SiteUrl>)
        ensures
            url_view(r) == joined_url(self@.text, reference@),
            r matches Some(u) ==> u@.well_formed(),
    {
        match join_url(self.parts.text.as_str(), reference) {
            Some(parts) => Some(SiteUrl { parts }),
            None => None,
        }
    }

    /// The address without its fragment.
    pub fn without_fragment(&self) -> (r: String)
        ensures
            r@ == unfragmented_url(self@.text),
    {
        drop_fragment(self.parts.text.as_str())
    }

    /// The whole address.
    pub fn as_str(&self) -> (r: &str)
        ensures
            r@ == self@.text,
    {
        self.parts.text.as_str()
    }

    /// The scheme, such as `https`.
    pub fn scheme(&self) -> (r: &str)
        ensures
            r@ == self@.scheme,
    {
        self.parts.scheme.as_str()
    }

    /// The host, where the address has one.
    pub fn host_str(&self) -> (r: Option<&str>)
        ensures
            match r {
                Some(h) => self@.host == Some(h@),
                None => self@.host is None,
            },
    {
        match &self.parts.host {
            Some(h) => Some(h.as_str()),
            None => None,
        }
    }

    /// The path, with escapes.
    pub fn path(&self) -> (r: &str)
        ensures
            r@ == self@.path,
            self@.well_formed(),
    {
        proof {
            use_type_invariant(self);
        }
        self.parts.path.as_str()
    }
}

} // verus!
