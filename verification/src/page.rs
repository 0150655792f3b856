//! Pages, as the `scraper` crate parses them.

use vstd::prelude::*;
use crate::text::{byte_len, text_view};

verus! {

/// What is read of an element of a page.
#[derive(Debug, PartialEq, Eq)]
pub struct PageElement {
    /// The values of the attributes that were asked for, in that order.
    pub attributes: Vec<Option<String>>,
    /// The text inside the element.
    pub text: String,
}

/// The characters of a [`PageElement`].
#[verifier::ext_equal]
pub struct ElementView {
    pub attributes: Seq<Option<Seq<char>>>,
    pub text: Seq<char>,
}

impl View for PageElement {
    type V = ElementView;

    open spec fn view(&self) -> ElementView {
        ElementView {
            attributes: self.attributes@.map_values(|a: Option<String>| text_view(a)),
            text: self.text@,
        }
    }
}

/// The characters of a list of elements.
pub open spec fn element_views(elements: Seq<PageElement>) -> Seq<ElementView> {
    elements.map_values(|e: PageElement| e@)
}

/// The characters of a list of names.
pub open spec fn name_views(names: Seq<&'static str>) -> Seq<Seq<char>> {
    names.map_values(|n: &'static str| n@)
}

/// The page is not longer than the parser can take. The parser keeps text
/// in strings that hold less than 2^32 bytes and grow to a power of two, so
/// one that is put together from pieces must not pass 2^31 bytes; a
/// character that the parser replaces can grow to three bytes.
pub open spec fn page_fits(html: Seq<char>) -> bool {
    byte_len(html) <= PAGE_LIMIT
}

/// The greatest number of bytes of a page.
pub const PAGE_LIMIT: usize = 0x2aaa_aaaa;

/// The elements of the page `html` that the selector `css` picks, in the
/// order in which the parser made them, with the values of the attributes
/// `attributes`. None where `css` is no selector.
pub uninterp spec fn selected(
    html: Seq<char>,
    css: Seq<char>,
    attributes: Seq<Seq<char>>,
) -> Seq<ElementView>;

/// `scraper::Html::parse_document`, and `scraper::Html::select` for each of
/// the selectors: the elements depend on the page, the selector and the
/// names of the attributes alone. A longer page than [`page_fits`] admits
/// could make the parser panic.
#[verifier::external_body]
pub(crate) fn select_all(
    html: &str,
    selectors: &Vec<&'static str>,
    attributes: &Vec<&'static str>,
) -> (r: Vec<Vec<PageElement>>)
    requires
        page_fits(html@),
    ensures
        r@.len() == selectors@.len(),
        forall|i: int|
            0 <= i < r@.len() ==> element_views((#[trigger] r@[i])@) == selected(
                html@,
                selectors@[i]@,
                name_views(attributes@),
            ),
{
    let doc = scraper::Html::parse_document(html);
    let read = |e: scraper::ElementRef| PageElement {
        attributes: attributes.iter().map(|a| e.attr(a).map(|v| v.to_string())).collect(),
        text: e.text().collect(),
    };
    let pick = |css: &&'static str| match scraper::Selector::parse(css) {
        Ok(selector) => doc.select(&selector).map(read).collect(),
        Err(_) => Vec::new(),
    };
    selectors.iter().map(pick).collect()
}

} // verus!
