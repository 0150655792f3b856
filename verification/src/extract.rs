//! Site-agnostic extraction of manga metadata from a page's HTML.
//!
//! Given the HTML of a scanlation site (usually its homepage), this
//! finds a display title, a cover image, and the chapter list, all via
//! generic heuristics that never hardcode a domain.

use vstd::prelude::*;
use crate::address::{joined_url, unfragmented_url, url_view, SiteUrl, SiteUrlView};
use crate::heuristics::{
    chapter_info_on_host, clean_title, cleaned_title, hosts_related, info_of_url_on,
    law_title_not_blank, related,
};
use crate::number::{law_order_total, law_order_transitive, ChapterNumber, Decimal};
use crate::page::{
    element_views, name_views, page_fits, select_all, selected, ElementView, PageElement,
};
use crate::pattern::{is_match, regex_is_match};
use crate::text::{
    begins, begins_with, is_blank, lemma_blank, lemma_strip_back, lemma_strip_front, strip_back,
    strip_front, text_view, to_chars, to_text, trim, trimmed, CharClass,
};

verus! {

/// A link to a chapter.
#[derive(Debug, PartialEq, Eq)]
pub struct ChapterLink {
    pub number: ChapterNumber,
    pub url: String,
}

/// The values of a [`ChapterLink`].
#[verifier::ext_equal]
pub struct ChapterLinkView {
    pub number: Decimal,
    pub url: Seq<char>,
}

impl View for ChapterLink {
    type V = ChapterLinkView;

    open spec fn view(&self) -> ChapterLinkView {
        ChapterLinkView { number: self.number@, url: self.url@ }
    }
}

impl Clone for ChapterLink {
    fn clone(&self) -> (r: Self)
        ensures
            r@ == self@,
    {
        ChapterLink { number: self.number.clone(), url: self.url.clone() }
    }
}

/// The values of a list of links.
pub open spec fn link_views(links: Seq<ChapterLink>) -> Seq<ChapterLinkView> {
    links.map_values(|l: ChapterLink| l@)
}

/// The numbers of the links ascend, and no two links have the same.
pub open spec fn ascending(links: Seq<ChapterLinkView>) -> bool {
    forall|i: int, j: int|
        0 <= i < j < links.len() ==> (#[trigger] links[i]).number.less((#[trigger] links[j]).number)
}

/// The numbers of the links are canonical.
pub open spec fn numbers_canonical(links: Seq<ChapterLinkView>) -> bool {
    forall|i: int| 0 <= i < links.len() ==> (#[trigger] links[i]).number.canonical()
}

// ---------- what is read of a page ----------

/// The selector of the title that a page gives for sharing.
pub const OG_TITLE: &'static str = r#"meta[property="og:title"]"#;

/// The selector of the site name that a page gives for sharing.
pub const OG_SITE_NAME: &'static str = r#"meta[property="og:site_name"]"#;

/// The selector of the page title.
pub const TITLE: &'static str = "title";

/// The selectors of the images that a page gives for sharing, the
/// preferred one first.
pub const OG_IMAGE_SECURE: &'static str = r#"meta[property="og:image:secure_url"]"#;

pub const OG_IMAGE: &'static str = r#"meta[property="og:image"]"#;

pub const TWITTER_IMAGE_NAME: &'static str = r#"meta[name="twitter:image"]"#;

pub const TWITTER_IMAGE_PROPERTY: &'static str = r#"meta[property="twitter:image"]"#;

/// The selector of images.
pub const IMAGE: &'static str = "img";

/// The selector of links.
pub const LINK: &'static str = "a[href]";

/// The positions of the attributes of an element of a page.
pub const CONTENT: usize = 0;

pub const SRC: usize = 1;

pub const DATA_SRC: usize = 2;

pub const DATA_LAZY_SRC: usize = 3;

pub const CLASS: usize = 4;

pub const HREF: usize = 5;

/// The names of the attributes, by position.
pub open spec fn attribute_names() -> Seq<Seq<char>> {
    seq!["content"@, "src"@, "data-src"@, "data-lazy-src"@, "class"@, "href"@]
}

/// The elements of a page that the extraction looks at, each kind in the
/// order in which the parser made them.
#[derive(Debug, PartialEq, Eq)]
pub struct Page {
    pub og_title: Vec<PageElement>,
    pub og_site_name: Vec<PageElement>,
    pub title: Vec<PageElement>,
    pub og_image_secure: Vec<PageElement>,
    pub og_image: Vec<PageElement>,
    pub twitter_image_name: Vec<PageElement>,
    pub twitter_image_property: Vec<PageElement>,
    pub images: Vec<PageElement>,
    pub links: Vec<PageElement>,
}

/// The values of a [`Page`].
#[verifier::ext_equal]
pub struct PageView {
    pub og_title: Seq<ElementView>,
    pub og_site_name: Seq<ElementView>,
    pub title: Seq<ElementView>,
    pub og_image_secure: Seq<ElementView>,
    pub og_image: Seq<ElementView>,
    pub twitter_image_name: Seq<ElementView>,
    pub twitter_image_property: Seq<ElementView>,
    pub images: Seq<ElementView>,
    pub links: Seq<ElementView>,
}

impl View for Page {
    type V = PageView;

    open spec fn view(&self) -> PageView {
        PageView {
            og_title: element_views(self.og_title@),
            og_site_name: element_views(self.og_site_name@),
            title: element_views(self.title@),
            og_image_secure: element_views(self.og_image_secure@),
            og_image: element_views(self.og_image@),
            twitter_image_name: element_views(self.twitter_image_name@),
            twitter_image_property: element_views(self.twitter_image_property@),
            images: element_views(self.images@),
            links: element_views(self.links@),
        }
    }
}

/// The elements of the page with the given HTML.
pub open spec fn page_of(html: Seq<char>) -> PageView {
    let names = attribute_names();
    PageView {
        og_title: selected(html, OG_TITLE@, names),
        og_site_name: selected(html, OG_SITE_NAME@, names),
        title: selected(html, TITLE@, names),
        og_image_secure: selected(html, OG_IMAGE_SECURE@, names),
        og_image: selected(html, OG_IMAGE@, names),
        twitter_image_name: selected(html, TWITTER_IMAGE_NAME@, names),
        twitter_image_property: selected(html, TWITTER_IMAGE_PROPERTY@, names),
        images: selected(html, IMAGE@, names),
        links: selected(html, LINK@, names),
    }
}

/// Takes the last list of elements off.
fn pop_elements(lists: &mut Vec<Vec<PageElement>>) -> (r: Vec<PageElement>)
    requires
        old(lists)@.len() > 0,
    ensures
        r == old(lists)@.last(),
        final(lists)@ == old(lists)@.drop_last(),
{
    match lists.pop() {
        Some(elements) => elements,
        None => Vec::new(),
    }
}

/// Parses a page.
pub fn read_page(html: &str) -> (r: Page)
    requires
        page_fits(html@),
    ensures
        r@ == page_of(html@),
{
    let selectors: Vec<&'static str> = vec![
        OG_TITLE,
        OG_SITE_NAME,
        TITLE,
        OG_IMAGE_SECURE,
        OG_IMAGE,
        TWITTER_IMAGE_NAME,
        TWITTER_IMAGE_PROPERTY,
        IMAGE,
        LINK,
    ];
    let names: Vec<&'static str> = vec![
        "content",
        "src",
        "data-src",
        "data-lazy-src",
        "class",
        "href",
    ];
    assert(name_views(names@) =~= attribute_names());
    let mut lists = select_all(html, &selectors, &names);
    let ghost all = lists@;
    let links = pop_elements(&mut lists);
    let images = pop_elements(&mut lists);
    let twitter_image_property = pop_elements(&mut lists);
    let twitter_image_name = pop_elements(&mut lists);
    let og_image = pop_elements(&mut lists);
    let og_image_secure = pop_elements(&mut lists);
    let title = pop_elements(&mut lists);
    let og_site_name = pop_elements(&mut lists);
    let og_title = pop_elements(&mut lists);
    proof {
        assert(links == all[8] && images == all[7] && twitter_image_property == all[6]);
        assert(twitter_image_name == all[5] && og_image == all[4] && og_image_secure == all[3]);
        assert(title == all[2] && og_site_name == all[1] && og_title == all[0]);
    }
    Page {
        og_title,
        og_site_name,
        title,
        og_image_secure,
        og_image,
        twitter_image_name,
        twitter_image_property,
        images,
        links,
    }
}

/// The value of an attribute of an element.
pub open spec fn attribute(e: ElementView, i: int) -> Option<Seq<char>> {
    if 0 <= i < e.attributes.len() {
        e.attributes[i]
    } else {
        None
    }
}

/// Reads an attribute of an element.
fn attribute_of(e: &PageElement, i: usize) -> (r: Option<&String>)
    ensures
        match r {
            Some(s) => attribute(e@, i as int) == Some(s@),
            None => attribute(e@, i as int) is None,
        },
{
    if i < e.attributes.len() {
        assert(e@.attributes[i as int] == text_view(e.attributes@[i as int]));
        match &e.attributes[i] {
            Some(s) => Some(s),
            None => None,
        }
    } else {
        None
    }
}

/// The first content of the elements that is not just white space, without
/// the white space at either end.
pub open spec fn first_content(elements: Seq<ElementView>) -> Option<Seq<char>>
    decreases elements.len(),
{
    if elements.len() == 0 {
        None
    } else {
        match attribute(elements[0], CONTENT as int) {
            Some(c) if trim(c).len() > 0 => Some(trim(c)),
            _ => first_content(elements.drop_first()),
        }
    }
}

/// Reads the first content of the elements that is not just white space.
pub fn meta_content(elements: &Vec<PageElement>) -> (r: Option<String>)
    ensures
        text_view(r) == first_content(element_views(elements@)),
{
    let ghost all = element_views(elements@);
    let mut i: usize = 0;
    assert(all.skip(0) =~= all);
    while i < elements.len()
        invariant
            all == element_views(elements@),
            i <= elements@.len(),
            first_content(all) == first_content(all.skip(i as int)),
        decreases elements@.len() - i,
    {
        assert(all.skip(i as int)[0] == elements@[i as int]@);
        assert(all.skip(i as int).drop_first() =~= all.skip(i + 1));
        if let Some(content) = attribute_of(&elements[i], CONTENT) {
            let text = trimmed(&to_chars(content.as_str()));
            if text.len() > 0 {
                return Some(to_text(&text));
            }
        }
        i = i + 1;
    }
    None
}

// ---------- the title ----------

/// The title that a page gives, before it is cleaned.
pub open spec fn raw_title(page: PageView) -> Seq<char> {
    match first_content(page.og_title) {
        Some(t) => t,
        None => match first_content(page.og_site_name) {
            Some(t) => t,
            None => if page.title.len() > 0 {
                page.title[0].text
            } else {
                Seq::empty()
            },
        },
    }
}

/// A title, or the placeholder for none.
pub open spec fn title_or_placeholder(cleaned: Seq<char>) -> Seq<char> {
    if cleaned.len() == 0 {
        "Untitled manga"@
    } else {
        cleaned
    }
}

/// The display title of a page.
pub open spec fn title_of_page(page: PageView) -> Seq<char> {
    title_or_placeholder(cleaned_title(raw_title(page)))
}

/// Picks the title that a page gives.
pub fn pick_title(page: &Page) -> (r: String)
    ensures
        r@ == raw_title(page@),
{
    if let Some(t) = meta_content(&page.og_title) {
        return t;
    }
    if let Some(t) = meta_content(&page.og_site_name) {
        return t;
    }
    if page.title.len() > 0 {
        assert(page@.title[0] == page.title@[0]@);
        return page.title[0].text.clone();
    }
    String::new()
}

/// Puts the placeholder in the place of an empty title.
pub fn placeholder_title(cleaned: String) -> (r: String)
    ensures
        r@ == title_or_placeholder(cleaned@),
{
    if cleaned.as_str().is_empty() {
        "Untitled manga".to_owned()
    } else {
        cleaned
    }
}

/// The display title of a page.
pub fn extract_title(page: &Page) -> (r: String)
    ensures
        r@ == title_of_page(page@),
{
    placeholder_title(clean_title(pick_title(page).as_str()))
}

// ---------- the cover ----------

/// Whether a scheme is one of the web.
pub open spec fn web_scheme(scheme: Seq<char>) -> bool {
    scheme == "http"@ || scheme == "https"@
}

fn is_web_scheme(scheme: &str) -> (r: bool)
    ensures
        r == web_scheme(scheme@),
{
    scheme.eq("http") || scheme.eq("https")
}

/// Whether a reference is worth resolving: it is not empty and no inline
/// data.
pub open spec fn resolvable(reference: Seq<char>) -> bool {
    reference.len() > 0 && !begins(reference, "data:"@)
}

/// The absolute address of a reference, given what it resolves to.
pub open spec fn web_address(url: Option<SiteUrlView>) -> Option<Seq<char>> {
    match url {
        Some(u) if web_scheme(u.scheme) => Some(u.text),
        _ => None,
    }
}

/// The absolute address of a reference on the page with address `base`.
pub open spec fn absolute(raw: Seq<char>, base: SiteUrlView) -> Option<Seq<char>> {
    if resolvable(trim(raw)) {
        web_address(joined_url(base.text, trim(raw)))
    } else {
        None
    }
}

/// Keeps a resolved address where it is one of the web.
pub fn web_address_of(url: &Option<SiteUrl>) -> (r: Option<String>)
    ensures
        text_view(r) == web_address(url_view(*url)),
{
    match url {
        Some(u) => if is_web_scheme(u.scheme()) {
            Some(u.as_str().to_owned())
        } else {
            None
        },
        None => None,
    }
}

/// Resolves a reference to an address of the web.
pub fn absolutize(raw: &str, base: &SiteUrl) -> (r: Option<String>)
    ensures
        text_view(r) == absolute(raw@, base@),
{
    let reference = trimmed(&to_chars(raw));
    if reference.len() == 0 || begins_with(&reference, "data:") {
        return None;
    }
    let text = to_text(&reference);
    let url = base.join(text.as_str());
    web_address_of(&url)
}

/// The pattern of images that are no covers.
pub const BAD_IMAGE: &'static str =
    r"(?i)(?:^|[/_.-])(?:ad|ads|advert|banner|logo|avatar|favicon|sprite|icon|placeholder|loader|tracking|pixel|analytics)(?:[/_.-]|$)";

/// The pattern of what covers are called.
pub const COVER_HINT: &'static str = r"(?i)cover|poster|thumb|portrait";

/// An image that may be the cover.
#[derive(Debug, PartialEq, Eq)]
pub struct CoverCandidate {
    pub url: String,
    /// Whether it is called like a cover.
    pub coverish: bool,
}

/// The values of a [`CoverCandidate`].
#[verifier::ext_equal]
pub struct CoverView {
    pub url: Seq<char>,
    pub coverish: bool,
}

impl View for CoverCandidate {
    type V = CoverView;

    open spec fn view(&self) -> CoverView {
        CoverView { url: self.url@, coverish: self.coverish }
    }
}

/// The values of a list of cover candidates.
pub open spec fn cover_views(covers: Seq<CoverCandidate>) -> Seq<CoverView> {
    covers.map_values(|c: CoverCandidate| c@)
}

/// Where an image comes from: its source, or else one that is loaded late.
pub open spec fn image_source(e: ElementView) -> Option<Seq<char>> {
    match attribute(e, SRC as int) {
        Some(s) => Some(s),
        None => match attribute(e, DATA_SRC as int) {
            Some(s) => Some(s),
            None => attribute(e, DATA_LAZY_SRC as int),
        },
    }
}

/// What an image is called: its source and its class.
pub open spec fn image_hint(e: ElementView, source: Seq<char>) -> Seq<char> {
    source + " "@ + match attribute(e, CLASS as int) {
        Some(c) => c,
        None => Seq::empty(),
    }
}

/// The cover candidate that an image is, none where it has no address of
/// the web or the address is one of junk.
pub open spec fn cover_candidate(e: ElementView, base: SiteUrlView) -> Option<CoverView> {
    match image_source(e) {
        None => None,
        Some(source) => match absolute(source, base) {
            None => None,
            Some(url) => if regex_is_match(BAD_IMAGE@, url) == Some(true) {
                None
            } else {
                Some(
                    CoverView {
                        url,
                        coverish: regex_is_match(COVER_HINT@, image_hint(e, source)) == Some(true),
                    },
                )
            },
        },
    }
}

/// The cover candidates among the images, in the order of the images.
pub open spec fn cover_candidates(
    images: Seq<ElementView>,
    base: SiteUrlView,
) -> Seq<CoverView>
    decreases images.len(),
{
    if images.len() == 0 {
        Seq::empty()
    } else {
        let covers = cover_candidates(images.drop_last(), base);
        match cover_candidate(images.last(), base) {
            Some(c) => covers.push(c),
            None => covers,
        }
    }
}

/// The first candidate that is called like a cover.
pub open spec fn first_coverish(covers: Seq<CoverView>) -> Option<Seq<char>>
    decreases covers.len(),
{
    if covers.len() == 0 {
        None
    } else if covers[0].coverish {
        Some(covers[0].url)
    } else {
        first_coverish(covers.drop_first())
    }
}

/// The preferred candidate: the first one that is called like a cover, else
/// the first one.
pub open spec fn preferred_cover(covers: Seq<CoverView>) -> Option<Seq<char>> {
    match first_coverish(covers) {
        Some(url) => Some(url),
        None => if covers.len() > 0 {
            Some(covers[0].url)
        } else {
            None
        },
    }
}

/// The address of the image that the elements give for sharing.
pub open spec fn shared_image(elements: Seq<ElementView>, base: SiteUrlView) -> Option<Seq<char>> {
    match first_content(elements) {
        Some(content) => absolute(content, base),
        None => None,
    }
}

/// The cover of a page: the image that it gives for sharing, else the
/// preferred one of its images.
pub open spec fn cover_of_page(page: PageView, base: SiteUrlView) -> Option<Seq<char>> {
    if shared_image(page.og_image_secure, base) is Some {
        shared_image(page.og_image_secure, base)
    } else if shared_image(page.og_image, base) is Some {
        shared_image(page.og_image, base)
    } else if shared_image(page.twitter_image_name, base) is Some {
        shared_image(page.twitter_image_name, base)
    } else if shared_image(page.twitter_image_property, base) is Some {
        shared_image(page.twitter_image_property, base)
    } else {
        preferred_cover(cover_candidates(page.images, base))
    }
}

fn shared_image_of(elements: &Vec<PageElement>, base: &SiteUrl) -> (r: Option<String>)
    ensures
        text_view(r) == shared_image(element_views(elements@), base@),
{
    match meta_content(elements) {
        Some(content) => absolutize(content.as_str(), base),
        None => None,
    }
}

/// Judges an image.
fn cover_candidate_of(e: &PageElement, base: &SiteUrl) -> (r: Option<CoverCandidate>)
    ensures
        match r {
            Some(c) => cover_candidate(e@, base@) == Some(c@),
            None => cover_candidate(e@, base@) is None,
        },
{
    let source: &String = match attribute_of(e, SRC) {
        Some(s) => s,
        None => match attribute_of(e, DATA_SRC) {
            Some(s) => s,
            None => match attribute_of(e, DATA_LAZY_SRC) {
                Some(s) => s,
                None => {
                    return None;
                },
            },
        },
    };
    let class: String = match attribute_of(e, CLASS) {
        Some(c) => c.clone(),
        None => String::new(),
    };
    let hint = source.clone().concat(" ").concat(class.as_str());
    let url = match absolutize(source.as_str(), base) {
        Some(url) => url,
        None => {
            return None;
        },
    };
    let bad = match is_match(BAD_IMAGE, url.as_str()) {
        Some(b) => b,
        None => false,
    };
    if bad {
        return None;
    }
    let coverish = match is_match(COVER_HINT, hint.as_str()) {
        Some(b) => b,
        None => false,
    };
    Some(CoverCandidate { url, coverish })
}

/// Picks the preferred candidate.
pub fn pick_cover(covers: &Vec<CoverCandidate>) -> (r: Option<String>)
    ensures
        text_view(r) == preferred_cover(cover_views(covers@)),
{
    let ghost all = cover_views(covers@);
    let mut i: usize = 0;
    assert(all.skip(0) =~= all);
    while i < covers.len()
        invariant
            all == cover_views(covers@),
            i <= covers@.len(),
            first_coverish(all) == first_coverish(all.skip(i as int)),
        decreases covers@.len() - i,
    {
        assert(all.skip(i as int)[0] == covers@[i as int]@);
        assert(all.skip(i as int).drop_first() =~= all.skip(i + 1));
        if covers[i].coverish {
            return Some(covers[i].url.clone());
        }
        i = i + 1;
    }
    if covers.len() > 0 {
        assert(all[0] == covers@[0]@);
        Some(covers[0].url.clone())
    } else {
        None
    }
}

/// The cover of a page.
pub fn extract_cover(page: &Page, base: &SiteUrl) -> (r: Option<String>)
    ensures
        text_view(r) == cover_of_page(page@, base@),
{
    if let Some(url) = shared_image_of(&page.og_image_secure, base) {
        return Some(url);
    }
    if let Some(url) = shared_image_of(&page.og_image, base) {
        return Some(url);
    }
    if let Some(url) = shared_image_of(&page.twitter_image_name, base) {
        return Some(url);
    }
    if let Some(url) = shared_image_of(&page.twitter_image_property, base) {
        return Some(url);
    }
    let ghost images = element_views(page.images@);
    let mut covers: Vec<CoverCandidate> = Vec::new();
    let mut i: usize = 0;
    assert(cover_views(covers@) =~= Seq::<CoverView>::empty());
    while i < page.images.len()
        invariant
            images == element_views(page.images@),
            i <= page.images@.len(),
            cover_views(covers@) == cover_candidates(images.take(i as int), base@),
        decreases page.images@.len() - i,
    {
        assert(images.take(i + 1).drop_last() =~= images.take(i as int));
        assert(images.take(i + 1).last() == page.images@[i as int]@);
        let ghost before = covers@;
        if let Some(c) = cover_candidate_of(&page.images[i], base) {
            let ghost pushed = c@;
            covers.push(c);
            assert(cover_views(covers@) =~= cover_views(before).push(pushed));
        }
        i = i + 1;
    }
    assert(images.take(images.len() as int) =~= images);
    pick_cover(&covers)
}

// ---------- the dominant family ----------

/// A link that looks like a chapter, with its family.
#[derive(Debug, PartialEq, Eq)]
pub struct ChapterCandidate {
    pub family: String,
    pub number: ChapterNumber,
    pub url: String,
}

/// The values of a [`ChapterCandidate`].
#[verifier::ext_equal]
pub struct CandidateView {
    pub family: Seq<char>,
    pub number: Decimal,
    pub url: Seq<char>,
}

impl View for ChapterCandidate {
    type V = CandidateView;

    open spec fn view(&self) -> CandidateView {
        CandidateView { family: self.family@, number: self.number@, url: self.url@ }
    }
}

/// The values of a list of candidates.
pub open spec fn candidate_views(candidates: Seq<ChapterCandidate>) -> Seq<CandidateView> {
    candidates.map_values(|c: ChapterCandidate| c@)
}

/// Whether one of the links has the number.
pub open spec fn has_number(links: Seq<ChapterLinkView>, number: Decimal) -> bool {
    exists|i: int| 0 <= i < links.len() && (#[trigger] links[i]).number == number
}

/// The links of a family in the order of the page, the first one of each
/// chapter number.
pub open spec fn family_links(
    candidates: Seq<CandidateView>,
    family: Seq<char>,
) -> Seq<ChapterLinkView>
    decreases candidates.len(),
{
    if candidates.len() == 0 {
        Seq::empty()
    } else {
        let links = family_links(candidates.drop_last(), family);
        let c = candidates.last();
        if c.family == family && !has_number(links, c.number) {
            links.push(ChapterLinkView { number: c.number, url: c.url })
        } else {
            links
        }
    }
}

/// The number of distinct chapters in the family of candidate `i`.
pub open spec fn family_size(candidates: Seq<CandidateView>, i: int) -> nat {
    family_links(candidates, candidates[i].family).len()
}

/// Candidate `i` is the first one whose family has the most distinct
/// chapters.
pub open spec fn is_dominant(candidates: Seq<CandidateView>, i: int) -> bool {
    &&& 0 <= i < candidates.len()
    &&& forall|j: int|
        0 <= j < candidates.len() ==> #[trigger] family_size(candidates, j) <= family_size(
            candidates,
            i,
        )
    &&& forall|j: int|
        0 <= j < i ==> #[trigger] family_size(candidates, j) < family_size(candidates, i)
}

/// `chapters` are the chapters of the dominant family in ascending order,
/// one for each number. A family of fewer than two is noise.
pub open spec fn dominant_chapters(
    candidates: Seq<CandidateView>,
    chapters: Seq<ChapterLinkView>,
) -> bool {
    if exists|i: int| is_dominant(candidates, i) && family_size(candidates, i) >= 2 {
        let i = choose|i: int| is_dominant(candidates, i);
        &&& chapters.to_multiset() == family_links(candidates, candidates[i].family).to_multiset()
        &&& ascending(chapters)
    } else {
        chapters.len() == 0
    }
}

/// There is one dominant candidate at most.
proof fn lemma_dominant_unique(candidates: Seq<CandidateView>, i: int, j: int)
    requires
        is_dominant(candidates, i),
        is_dominant(candidates, j),
    ensures
        i == j,
{
    if i < j {
        assert(family_size(candidates, i) < family_size(candidates, j));
    } else if j < i {
        assert(family_size(candidates, j) < family_size(candidates, i));
    }
}

/// Decides whether one of the links has the number.
fn contains_number(links: &Vec<ChapterLink>, number: &ChapterNumber) -> (r: bool)
    ensures
        r == has_number(link_views(links@), number@),
{
    let mut i: usize = 0;
    while i < links.len()
        invariant
            i <= links@.len(),
            forall|j: int| 0 <= j < i ==> (#[trigger] link_views(links@)[j]).number != number@,
        decreases links@.len() - i,
    {
        if links[i].number.equals(number) {
            assert(link_views(links@)[i as int].number == number@);
            return true;
        }
        i = i + 1;
    }
    false
}

/// Collects the links of a family, the first one of each chapter number.
fn collect_family(candidates: &Vec<ChapterCandidate>, family: &String) -> (r: Vec<ChapterLink>)
    ensures
        link_views(r@) == family_links(candidate_views(candidates@), family@),
        numbers_canonical(link_views(r@)),
{
    let ghost all = candidate_views(candidates@);
    let mut links: Vec<ChapterLink> = Vec::new();
    let mut i: usize = 0;
    assert(link_views(links@) =~= Seq::<ChapterLinkView>::empty());
    while i < candidates.len()
        invariant
            all == candidate_views(candidates@),
            i <= candidates@.len(),
            link_views(links@) == family_links(all.take(i as int), family@),
            numbers_canonical(link_views(links@)),
        decreases candidates@.len() - i,
    {
        let c = &candidates[i];
        assert(all.take(i + 1).drop_last() =~= all.take(i as int));
        assert(all.take(i + 1).last() == c@);
        let ghost before = links@;
        if c.family == *family && !contains_number(&links, &c.number) {
            let link = ChapterLink { number: c.number.clone(), url: c.url.clone() };
            let ghost pushed = link@;
            links.push(link);
            assert(link_views(links@) =~= link_views(before).push(pushed));
        }
        i = i + 1;
    }
    assert(all.take(candidates@.len() as int) =~= all);
    links
}

/// The links of a family have distinct numbers.
proof fn lemma_family_distinct(candidates: Seq<CandidateView>, family: Seq<char>)
    ensures
        forall|i: int, j: int|
            0 <= i < j < family_links(candidates, family).len() ==> (#[trigger] family_links(
                candidates,
                family,
            )[i]).number != (#[trigger] family_links(candidates, family)[j]).number,
    decreases candidates.len(),
{
    if candidates.len() > 0 {
        lemma_family_distinct(candidates.drop_last(), family);
        let links = family_links(candidates.drop_last(), family);
        let all = family_links(candidates, family);
        assert forall|i: int, j: int| 0 <= i < j < all.len() implies (#[trigger] all[i]).number != (
        #[trigger] all[j]).number by {
            assert(all[i] == links[i]);
            if j < links.len() {
                assert(all[j] == links[j]);
            }
        }
    }
}

/// Puts a link into its place among ascending links.
fn insert_link(links: &mut Vec<ChapterLink>, link: ChapterLink)
    requires
        ascending(link_views(old(links)@)),
        numbers_canonical(link_views(old(links)@)),
        link@.number.canonical(),
        !has_number(link_views(old(links)@), link@.number),
    ensures
        ascending(link_views(final(links)@)),
        numbers_canonical(link_views(final(links)@)),
        link_views(final(links)@).to_multiset() == link_views(old(links)@).to_multiset().insert(
            link@,
        ),
{
    let ghost before = link_views(links@);
    let ghost x = link@;
    let mut i: usize = 0;
    while i < links.len() && links[i].number.less_than(&link.number)
        invariant
            i <= links@.len(),
            links@ == old(links)@,
            before == link_views(links@),
            x == link@,
            forall|j: int| 0 <= j < i ==> (#[trigger] before[j]).number.less(x.number),
        decreases links@.len() - i,
    {
        i = i + 1;
    }
    links.insert(i, link);
    proof {
        let after = link_views(links@);
        assert(after =~= before.insert(i as int, x));
        vstd::seq_lib::to_multiset_insert(before, i as int, x);
        if i < before.len() {
            assert(before[i as int].number != x.number);
            law_order_total(before[i as int].number, x.number);
        }
        assert forall|a: int, b: int| 0 <= a < b < after.len() implies (#[trigger] after[a]).number.less(
            (#[trigger] after[b]).number,
        ) by {
            if a < i && b < i {
                assert(before[a].number.less(before[b].number));
            } else if a < i && b == i {
            } else if a < i {
                assert(before[a].number.less(before[b - 1].number));
            } else if a == i {
                let k = b - 1;
                if k > i {
                    assert(before[i as int].number.less(before[k].number));
                    law_order_transitive(x.number, before[i as int].number, before[k].number);
                }
            } else {
                assert(before[a - 1].number.less(before[b - 1].number));
            }
        }
        assert forall|a: int| 0 <= a < after.len() implies (#[trigger] after[a]).number.canonical() by {
            if a < i {
                assert(before[a].number.canonical());
            } else if a > i {
                assert(before[a - 1].number.canonical());
            }
        }
    }
}

/// Sorts links with distinct numbers.
fn sort_links(links: Vec<ChapterLink>) -> (r: Vec<ChapterLink>)
    requires
        numbers_canonical(link_views(links@)),
        forall|i: int, j: int|
            0 <= i < j < links@.len() ==> (#[trigger] link_views(links@)[i]).number != (
            #[trigger] link_views(links@)[j]).number,
    ensures
        ascending(link_views(r@)),
        link_views(r@).to_multiset() == link_views(links@).to_multiset(),
{
    let ghost all = link_views(links@);
    let mut rest = links;
    let mut sorted: Vec<ChapterLink> = Vec::new();
    proof {
        broadcast use vstd::seq_lib::group_to_multiset_ensures;

        assert(link_views(sorted@) =~= Seq::<ChapterLinkView>::empty());
        assert(all.skip(all.len() as int) =~= Seq::<ChapterLinkView>::empty());
        assert(link_views(rest@) =~= all.take(all.len() as int));
        assert(all.take(all.len() as int) + Seq::<ChapterLinkView>::empty() =~= all);
    }
    while rest.len() > 0
        invariant
            rest@.len() <= all.len(),
            link_views(rest@) == all.take(rest@.len() as int),
            numbers_canonical(all),
            forall|i: int, j: int|
                0 <= i < j < all.len() ==> (#[trigger] all[i]).number != (#[trigger] all[j]).number,
            ascending(link_views(sorted@)),
            numbers_canonical(link_views(sorted@)),
            link_views(sorted@).to_multiset() == all.skip(rest@.len() as int).to_multiset(),
        decreases rest@.len(),
    {
        let ghost n = rest@.len() as int;
        let ghost from = rest@;
        if let Some(link) = rest.pop() {
            proof {
                assert(link@ == link_views(from)[n - 1]);
                assert(link@ == all[n - 1]);
                assert(!has_number(link_views(sorted@), link@.number)) by {
                    if has_number(link_views(sorted@), link@.number) {
                        let s = link_views(sorted@);
                        let k = choose|k: int| 0 <= k < s.len() && (#[trigger] s[k]).number
                            == link@.number;
                        vstd::seq_lib::to_multiset_contains(s, s[k]);
                        vstd::seq_lib::to_multiset_contains(all.skip(n), s[k]);
                        assert(s.contains(s[k]));
                        let m = choose|m: int|
                            0 <= m < all.skip(n).len() && all.skip(n)[m] == s[k];
                        assert(all[n + m].number == all[n - 1].number);
                    }
                }
                assert(all.skip(n - 1) =~= all.skip(n).insert(0, all[n - 1]));
                vstd::seq_lib::to_multiset_insert(all.skip(n), 0, all[n - 1]);
                assert(link_views(rest@) =~= all.take(n - 1));
            }
            insert_link(&mut sorted, link);
        }
    }
    assert(all.skip(0) =~= all);
    sorted
}

/// The chapters of the dominant family among the candidates of a page, in
/// ascending order. Ties between families go to the one that comes first
/// on the page.
pub fn select_chapters(candidates: &Vec<ChapterCandidate>) -> (r: Vec<ChapterLink>)
    ensures
        dominant_chapters(candidate_views(candidates@), link_views(r@)),
        ascending(link_views(r@)),
{
    let ghost all = candidate_views(candidates@);
    let mut best: Vec<ChapterLink> = Vec::new();
    let ghost mut at: int = -1;
    let mut i: usize = 0;
    while i < candidates.len()
        invariant
            all == candidate_views(candidates@),
            i <= candidates@.len(),
            i == 0 ==> at == -1 && best@.len() == 0,
            i > 0 ==> {
                &&& 0 <= at < i
                &&& link_views(best@) == family_links(all, all[at].family)
                &&& forall|j: int|
                    0 <= j < i ==> #[trigger] family_size(all, j) <= family_size(all, at)
                &&& forall|j: int|
                    0 <= j < at ==> #[trigger] family_size(all, j) < family_size(all, at)
            },
            numbers_canonical(link_views(best@)),
        decreases candidates@.len() - i,
    {
        if !family_seen(candidates, i) {
            let links = collect_family(candidates, &candidates[i].family);
            assert(link_views(links@).len() == family_size(all, i as int));
            assert(i > 0 ==> link_views(best@).len() == family_size(all, at));
            proof {
                if i == 0 {
                    lemma_family_nonempty(all, 0);
                }
            }
            if links.len() > best.len() {
                best = links;
                proof {
                    at = i as int;
                }
            }
        } else {
            proof {
                let j = choose|j: int| 0 <= j < i && (#[trigger] all[j]).family == all[i as int].family;
                assert(family_size(all, j) == family_size(all, i as int));
            }
        }
        i = i + 1;
    }
    proof {
        assert(i > 0 ==> is_dominant(all, at));
        assert(i > 0 ==> link_views(best@).len() == family_size(all, at));
        if exists|k: int| is_dominant(all, k) && family_size(all, k) >= 2 {
            let k = choose|k: int| is_dominant(all, k) && family_size(all, k) >= 2;
            lemma_dominant_unique(all, k, at);
        }
    }
    if best.len() < 2 {
        // A single "chapter-looking" link is far more likely to be noise
        // (an unrelated numbered page) than a one-chapter manga.
        let none: Vec<ChapterLink> = Vec::new();
        assert(link_views(none@).len() == 0);
        return none;
    }
    proof {
        lemma_family_distinct(all, all[at].family);
        let k = choose|k: int| is_dominant(all, k);
        lemma_dominant_unique(all, k, at);
    }
    sort_links(best)
}

/// Whether an earlier candidate has the family of candidate `i`.
fn family_seen(candidates: &Vec<ChapterCandidate>, i: usize) -> (r: bool)
    requires
        i < candidates@.len(),
    ensures
        r == exists|j: int|
            0 <= j < i && (#[trigger] candidate_views(candidates@)[j]).family == candidate_views(
                candidates@,
            )[i as int].family,
{
    let mut j: usize = 0;
    while j < i
        invariant
            j <= i < candidates@.len(),
            forall|k: int|
                0 <= k < j ==> (#[trigger] candidate_views(candidates@)[k]).family
                    != candidate_views(candidates@)[i as int].family,
        decreases i - j,
    {
        if candidates[j].family == candidates[i].family {
            assert(candidate_views(candidates@)[j as int].family == candidate_views(
                candidates@,
            )[i as int].family);
            return true;
        }
        j = j + 1;
    }
    false
}

/// The family of a candidate has a chapter.
proof fn lemma_family_nonempty(candidates: Seq<CandidateView>, i: int)
    requires
        0 <= i < candidates.len(),
    ensures
        family_size(candidates, i) > 0,
    decreases candidates.len(),
{
    let f = candidates[i].family;
    if i == candidates.len() - 1 {
        let links = family_links(candidates.drop_last(), f);
        assert(links.len() == 0 ==> !has_number(links, candidates.last().number));
    } else {
        lemma_family_nonempty(candidates.drop_last(), i);
    }
}

// ---------- the chapters ----------

/// The chapter candidate that a link is, given what it resolves to. It has
/// to be on the site of the page, to be one of the web, and to name a
/// chapter. The hosts of a site count as one: the family is that of the
/// link on the host of the page.
pub open spec fn candidate_of_url(
    url: Option<SiteUrlView>,
    base: SiteUrlView,
) -> Option<CandidateView> {
    match url {
        None => None,
        Some(u) => match (u.host, base.host) {
            (Some(a), Some(b)) => if !related(a, b) || !web_scheme(u.scheme) {
                None
            } else {
                match info_of_url_on(u, b) {
                    Some(info) => Some(
                        CandidateView {
                            family: info.family,
                            number: info.number,
                            url: unfragmented_url(u.text),
                        },
                    ),
                    None => None,
                }
            },
            _ => None,
        },
    }
}

/// The chapter candidate that a link is.
pub open spec fn candidate_of(e: ElementView, base: SiteUrlView) -> Option<CandidateView> {
    match attribute(e, HREF as int) {
        Some(href) => candidate_of_url(joined_url(base.text, trim(href)), base),
        None => None,
    }
}

/// The chapter candidates among the links, in the order of the links.
pub open spec fn candidates_of(links: Seq<ElementView>, base: SiteUrlView) -> Seq<CandidateView>
    decreases links.len(),
{
    if links.len() == 0 {
        Seq::empty()
    } else {
        let candidates = candidates_of(links.drop_last(), base);
        match candidate_of(links.last(), base) {
            Some(c) => candidates.push(c),
            None => candidates,
        }
    }
}

/// Judges a resolved link.
pub fn chapter_candidate(url: &Option<SiteUrl>, base: &SiteUrl) -> (r: Option<ChapterCandidate>)
    ensures
        match r {
            Some(c) => candidate_of_url(url_view(*url), base@) == Some(c@),
            None => candidate_of_url(url_view(*url), base@) is None,
        },
{
    let u = match url {
        Some(u) => u,
        None => {
            return None;
        },
    };
    let host = match (u.host_str(), base.host_str()) {
        (Some(a), Some(b)) => if hosts_related(a, b) {
            b
        } else {
            return None;
        },
        _ => {
            return None;
        },
    };
    if !is_web_scheme(u.scheme()) {
        return None;
    }
    match chapter_info_on_host(u, host) {
        Some(info) => Some(
            ChapterCandidate {
                family: info.family,
                number: info.number,
                url: u.without_fragment(),
            },
        ),
        None => None,
    }
}

/// The chapters of a page: the chapter-looking links of its site, grouped by
/// family; the family with the most distinct chapter numbers is kept.
pub fn extract_chapters(page: &Page, base: &SiteUrl) -> (r: Vec<ChapterLink>)
    ensures
        dominant_chapters(candidates_of(page@.links, base@), link_views(r@)),
        ascending(link_views(r@)),
{
    let ghost links = element_views(page.links@);
    let mut candidates: Vec<ChapterCandidate> = Vec::new();
    let mut i: usize = 0;
    assert(candidate_views(candidates@) =~= Seq::<CandidateView>::empty());
    while i < page.links.len()
        invariant
            links == element_views(page.links@),
            i <= page.links@.len(),
            candidate_views(candidates@) == candidates_of(links.take(i as int), base@),
        decreases page.links@.len() - i,
    {
        assert(links.take(i + 1).drop_last() =~= links.take(i as int));
        assert(links.take(i + 1).last() == page.links@[i as int]@);
        let ghost before = candidates@;
        if let Some(href) = attribute_of(&page.links[i], HREF) {
            let reference = to_text(&trimmed(&to_chars(href.as_str())));
            let url = base.join(reference.as_str());
            if let Some(c) = chapter_candidate(&url, base) {
                let ghost pushed = c@;
                candidates.push(c);
                assert(candidate_views(candidates@) =~= candidate_views(before).push(pushed));
            }
        }
        i = i + 1;
    }
    assert(links.take(links.len() as int) =~= links);
    select_chapters(&candidates)
}

// ---------- the site ----------

/// What a page says about a manga.
#[derive(Debug, PartialEq, Eq)]
pub struct SiteInfo {
    pub title: String,
    pub cover_url: Option<String>,
    /// Distinct chapters of the dominant chapter-link family, sorted by
    /// ascending chapter number.
    pub chapters: Vec<ChapterLink>,
}

/// The values of a [`SiteInfo`].
#[verifier::ext_equal]
pub struct SiteInfoView {
    pub title: Seq<char>,
    pub cover_url: Option<Seq<char>>,
    pub chapters: Seq<ChapterLinkView>,
}

impl View for SiteInfo {
    type V = SiteInfoView;

    open spec fn view(&self) -> SiteInfoView {
        SiteInfoView {
            title: self.title@,
            cover_url: text_view(self.cover_url),
            chapters: link_views(self.chapters@),
        }
    }
}

impl Clone for SiteInfo {
    fn clone(&self) -> (r: Self)
        ensures
            r@ == self@,
    {
        let mut chapters: Vec<ChapterLink> = Vec::new();
        let mut i: usize = 0;
        while i < self.chapters.len()
            invariant
                i <= self.chapters@.len(),
                link_views(chapters@) == link_views(self.chapters@).take(i as int),
            decreases self.chapters@.len() - i,
        {
            let ghost before = chapters@;
            let link = self.chapters[i].clone();
            let ghost view = link@;
            chapters.push(link);
            assert(link_views(chapters@) =~= link_views(before).push(view));
            assert(link_views(self.chapters@).take(i + 1) =~= link_views(self.chapters@).take(
                i as int,
            ).push(view));
            i = i + 1;
        }
        assert(link_views(chapters@) =~= link_views(self.chapters@));
        let cover_url = match &self.cover_url {
            Some(url) => Some(url.clone()),
            None => None,
        };
        SiteInfo { title: self.title.clone(), cover_url, chapters }
    }
}

/// `info` is what the page with address `base` says.
pub open spec fn is_site_info(page: PageView, base: SiteUrlView, info: SiteInfoView) -> bool {
    &&& info.title == title_of_page(page)
    &&& info.cover_url == cover_of_page(page, base)
    &&& dominant_chapters(candidates_of(page.links, base), info.chapters)
    &&& ascending(info.chapters)
}

/// Extract title, cover, and the chapter list of a parsed page.
pub fn site_info_from_page(page: &Page, base: &SiteUrl) -> (r: SiteInfo)
    ensures
        is_site_info(page@, base@, r@),
        r@.title == title_of_page(page@),
        r@.cover_url == cover_of_page(page@, base@),
        dominant_chapters(candidates_of(page@.links, base@), r@.chapters),
        ascending(r@.chapters),
{
    SiteInfo {
        title: extract_title(page),
        cover_url: extract_cover(page, base),
        chapters: extract_chapters(page, base),
    }
}

/// Parse a page and extract title, cover, and the chapter list.
pub fn extract_site_info(html: &str, base: &SiteUrl) -> (r: SiteInfo)
    requires
        page_fits(html@),
    ensures
        is_site_info(page_of(html@), base@, r@),
        r@.title == title_of_page(page_of(html@)),
        r@.cover_url == cover_of_page(page_of(html@), base@),
        dominant_chapters(candidates_of(page_of(html@).links, base@), r@.chapters),
        ascending(r@.chapters),
{
    site_info_from_page(&read_page(html), base)
}

/// The first chapter with a greater number.
pub open spec fn first_after(
    chapters: Seq<ChapterLinkView>,
    number: Decimal,
) -> Option<ChapterLinkView>
    decreases chapters.len(),
{
    if chapters.len() == 0 {
        None
    } else if number.less(chapters[0].number) {
        Some(chapters[0])
    } else {
        first_after(chapters.drop_first(), number)
    }
}

impl SiteInfo {
    /// The last chapter of the list.
    pub fn latest_chapter(&self) -> (r: Option<&ChapterLink>)
        ensures
            match r {
                Some(c) => self@.chapters.len() > 0 && c@ == self@.chapters.last(),
                None => self@.chapters.len() == 0,
            },
    {
        if self.chapters.len() > 0 {
            assert(self@.chapters.last() == self.chapters@.last()@);
            Some(&self.chapters[self.chapters.len() - 1])
        } else {
            None
        }
    }

    /// First chapter strictly after `number`: what "continue reading"
    /// should open when the last-read chapter is known.
    pub fn next_chapter_after(&self, number: &ChapterNumber) -> (r: Option<&ChapterLink>)
        ensures
            match r {
                Some(c) => first_after(self@.chapters, number@) == Some(c@),
                None => first_after(self@.chapters, number@) is None,
            },
    {
        let ghost all = self@.chapters;
        let mut i: usize = 0;
        assert(all.skip(0) =~= all);
        while i < self.chapters.len()
            invariant
                all == self@.chapters,
                i <= self.chapters@.len(),
                first_after(all, number@) == first_after(all.skip(i as int), number@),
            decreases self.chapters@.len() - i,
        {
            assert(all.skip(i as int)[0] == self.chapters@[i as int]@);
            assert(all.skip(i as int).drop_first() =~= all.skip(i + 1));
            if number.less_than(&self.chapters[i].number) {
                return Some(&self.chapters[i]);
            }
            i = i + 1;
        }
        None
    }
}

// ---------- laws ----------

/// Law: the last chapter of an ascending list is the greatest, and there
/// is none after it.
pub proof fn law_latest_is_greatest(chapters: Seq<ChapterLinkView>)
    requires
        ascending(chapters),
        chapters.len() > 0,
    ensures
        forall|i: int|
            0 <= i < chapters.len() - 1 ==> (#[trigger] chapters[i]).number.less(
                chapters.last().number,
            ),
        first_after(chapters, chapters.last().number) is None,
{
    let number = chapters.last().number;
    assert forall|i: int| 0 <= i < chapters.len() implies !number.less(
        (#[trigger] chapters[i]).number,
    ) by {
        if i < chapters.len() - 1 {
            assert(chapters[i].number.less(number));
        }
    }
    lemma_first_after(chapters, number);
}

/// What the first chapter after a number is.
proof fn lemma_first_after(chapters: Seq<ChapterLinkView>, number: Decimal)
    ensures
        first_after(chapters, number) is None <==> forall|i: int|
            0 <= i < chapters.len() ==> !number.less((#[trigger] chapters[i]).number),
        first_after(chapters, number) is Some ==> exists|i: int| #[trigger]
            is_first_after(chapters, number, i),
    decreases chapters.len(),
{
    if chapters.len() > 0 {
        let rest = chapters.drop_first();
        lemma_first_after(rest, number);
        if number.less(chapters[0].number) {
            assert(is_first_after(chapters, number, 0));
        } else {
            assert forall|i: int| 0 < i < chapters.len() implies #[trigger] chapters[i] == rest[i
                - 1] by {}
            if first_after(rest, number) is Some {
                let i = choose|i: int| #[trigger] is_first_after(rest, number, i);
                assert(chapters[i + 1] == rest[i]);
                assert(is_first_after(chapters, number, i + 1));
            } else {
                assert forall|i: int| 0 <= i < chapters.len() implies !number.less(
                    (#[trigger] chapters[i]).number,
                ) by {
                    if i > 0 {
                        assert(!number.less(rest[i - 1].number));
                    }
                }
            }
            if forall|i: int|
                0 <= i < chapters.len() ==> !number.less((#[trigger] chapters[i]).number) {
                assert forall|i: int| 0 <= i < rest.len() implies !number.less(
                    (#[trigger] rest[i]).number,
                ) by {
                    assert(rest[i] == chapters[i + 1]);
                }
            }
        }
    }
}

/// The first chapter after `number` is the one at `i`.
pub open spec fn is_first_after(chapters: Seq<ChapterLinkView>, number: Decimal, i: int) -> bool {
    &&& 0 <= i < chapters.len()
    &&& first_after(chapters, number) == Some(chapters[i])
    &&& number.less(chapters[i].number)
    &&& forall|j: int| 0 <= j < i ==> !number.less((#[trigger] chapters[j]).number)
}

/// Law: in an ascending list the next chapter after a number is the least
/// one beyond it, and there is none exactly where no chapter is beyond it.
pub proof fn law_next_is_least_beyond(chapters: Seq<ChapterLinkView>, number: Decimal)
    requires
        ascending(chapters),
    ensures
        match first_after(chapters, number) {
            Some(next) => {
                &&& number.less(next.number)
                &&& chapters.contains(next)
                &&& forall|i: int|
                    0 <= i < chapters.len() && number.less((#[trigger] chapters[i]).number)
                        ==> chapters[i] == next || next.number.less(chapters[i].number)
            },
            None => forall|i: int|
                0 <= i < chapters.len() ==> !number.less((#[trigger] chapters[i]).number),
        },
{
    lemma_first_after(chapters, number);
    if first_after(chapters, number) is Some {
        let at = choose|i: int| #[trigger] is_first_after(chapters, number, i);
        assert(chapters[at] == first_after(chapters, number)->0);
    }
}

/// Law: the next chapter of any list is the first one beyond the number.
pub proof fn law_first_beyond(
    a: Seq<ChapterLinkView>,
    c: ChapterLinkView,
    b: Seq<ChapterLinkView>,
    number: Decimal,
)
    requires
        forall|i: int| 0 <= i < a.len() ==> !number.less((#[trigger] a[i]).number),
        number.less(c.number),
    ensures
        first_after(a + seq![c] + b, number) == Some(c),
        first_after(a, number) is None,
    decreases a.len(),
{
    let all = a + seq![c] + b;
    if a.len() == 0 {
        assert(all[0] == c);
    } else {
        assert(!number.less(a[0].number));
        assert(all[0] == a[0]);
        assert(all.drop_first() =~= a.drop_first() + seq![c] + b);
        law_first_beyond(a.drop_first(), c, b, number);
    }
}

/// Law: a page always gets a title.
pub proof fn law_title_never_empty(page: PageView)
    ensures
        title_of_page(page).len() > 0,
        !is_blank(raw_title(page)) ==> title_of_page(page) == cleaned_title(raw_title(page)),
{
    reveal_strlit("Untitled manga");
    law_title_not_blank(raw_title(page));
}

/// The link says that the chapter is there: it has an address, that is on
/// the site of the page and of the web, and the chapter is what it names.
pub open spec fn links_to(e: ElementView, base: SiteUrlView, chapter: ChapterLinkView) -> bool {
    match attribute(e, HREF as int) {
        Some(href) => match joined_url(base.text, trim(href)) {
            Some(u) => {
                &&& u.host is Some && base.host is Some && related(u.host->0, base.host->0)
                &&& web_scheme(u.scheme)
                &&& info_of_url_on(u, base.host->0) is Some
                &&& chapter.number == info_of_url_on(u, base.host->0)->0.number
                &&& chapter.url == unfragmented_url(u.text)
            },
            None => false,
        },
        None => false,
    }
}

/// Law: each chapter of a page is one that a link of the page on its own
/// site names; off-site links and links of other schemes never count.
pub proof fn law_chapters_on_site(
    page: PageView,
    base: SiteUrlView,
    chapters: Seq<ChapterLinkView>,
    k: int,
)
    requires
        dominant_chapters(candidates_of(page.links, base), chapters),
        0 <= k < chapters.len(),
    ensures
        exists|i: int|
            0 <= i < page.links.len() && #[trigger] links_to(page.links[i], base, chapters[k]),
{
    broadcast use vstd::seq_lib::group_to_multiset_ensures;

    let candidates = candidates_of(page.links, base);
    let d = choose|i: int| is_dominant(candidates, i);
    let links = family_links(candidates, candidates[d].family);
    assert(chapters.contains(chapters[k]));
    assert(chapters.to_multiset().count(chapters[k]) > 0);
    assert(links.contains(chapters[k]));
    let l = choose|l: int| 0 <= l < links.len() && links[l] == chapters[k];
    lemma_family_member(candidates, candidates[d].family, l);
    let c = choose|c: int|
        0 <= c < candidates.len() && links[l] == as_link(#[trigger] candidates[c]);
    lemma_candidate_member(page.links, base, c);
    let i = choose|i: int|
        0 <= i < page.links.len() && candidate_of(#[trigger] page.links[i], base) == Some(
            candidates[c],
        );
    assert(links_to(page.links[i], base, chapters[k]));
}

/// The link of a candidate.
pub open spec fn as_link(c: CandidateView) -> ChapterLinkView {
    ChapterLinkView { number: c.number, url: c.url }
}

proof fn lemma_family_member(candidates: Seq<CandidateView>, family: Seq<char>, l: int)
    requires
        0 <= l < family_links(candidates, family).len(),
    ensures
        exists|c: int|
            0 <= c < candidates.len() && candidates[c].family == family && family_links(
                candidates,
                family,
            )[l] == as_link(#[trigger] candidates[c]),
    decreases candidates.len(),
{
    let links = family_links(candidates, family);
    let rest = candidates.drop_last();
    let before = family_links(rest, family);
    if l < before.len() {
        lemma_family_member(rest, family, l);
        let c = choose|c: int|
            0 <= c < rest.len() && rest[c].family == family && before[l] == as_link(
                #[trigger] rest[c],
            );
        assert(rest[c] == candidates[c]);
    } else {
        assert(links[l] == as_link(candidates[candidates.len() - 1]));
    }
}

proof fn lemma_candidate_member(links: Seq<ElementView>, base: SiteUrlView, c: int)
    requires
        0 <= c < candidates_of(links, base).len(),
    ensures
        exists|i: int|
            0 <= i < links.len() && candidate_of(#[trigger] links[i], base) == Some(
                candidates_of(links, base)[c],
            ),
    decreases links.len(),
{
    let all = candidates_of(links, base);
    let rest = links.drop_last();
    let before = candidates_of(rest, base);
    if c < before.len() {
        lemma_candidate_member(rest, base, c);
        let i = choose|i: int|
            0 <= i < rest.len() && candidate_of(#[trigger] rest[i], base) == Some(before[c]);
        assert(rest[i] == links[i]);
    } else {
        assert(candidate_of(links[links.len() - 1], base) == Some(all[c]));
    }
}

/// Law: the chapters are complete. Every chapter-looking link of the
/// family that was kept has its number among them, no other family has
/// more distinct chapters, and one chapter alone is never kept.
pub proof fn law_chapters_complete(
    candidates: Seq<CandidateView>,
    chapters: Seq<ChapterLinkView>,
)
    requires
        dominant_chapters(candidates, chapters),
    ensures
        chapters.len() != 1,
        forall|i: int|
            0 <= i < candidates.len() ==> #[trigger] family_size(candidates, i) <= chapters.len()
                || family_size(candidates, i) < 2,
        chapters.len() > 0 ==> exists|d: int| #[trigger]
            is_dominant(candidates, d) && chapters.len() == family_size(candidates, d) && forall|
                i: int,
            |
                0 <= i < candidates.len() && candidates[i].family == candidates[d].family
                    ==> has_number(chapters, (#[trigger] candidates[i]).number),
{
    broadcast use vstd::seq_lib::group_to_multiset_ensures;

    assert(chapters.len() == chapters.to_multiset().len());
    if exists|i: int| is_dominant(candidates, i) && family_size(candidates, i) >= 2 {
        let d = choose|i: int| is_dominant(candidates, i);
        let e = choose|i: int| is_dominant(candidates, i) && family_size(candidates, i) >= 2;
        lemma_dominant_unique(candidates, d, e);
        let links = family_links(candidates, candidates[d].family);
        assert(links.len() == links.to_multiset().len());
        assert(is_dominant(candidates, d));
        assert(links.len() == family_size(candidates, d));
        assert forall|i: int|
            0 <= i < candidates.len() && candidates[i].family
                == candidates[d].family implies has_number(
            chapters,
            (#[trigger] candidates[i]).number,
        ) by {
            lemma_family_complete(candidates, candidates[d].family, i);
            let l = choose|l: int|
                0 <= l < links.len() && (#[trigger] links[l]).number == candidates[i].number;
            assert(links.contains(links[l]));
            assert(links.to_multiset().count(links[l]) > 0);
            assert(chapters.contains(links[l]));
            let k = choose|k: int| 0 <= k < chapters.len() && chapters[k] == links[l];
            assert(chapters[k].number == candidates[i].number);
        }
    } else {
        assert forall|i: int| 0 <= i < candidates.len() implies #[trigger] family_size(
            candidates,
            i,
        ) < 2 by {
            lemma_dominant_exists(candidates, candidates.len() as int);
            let d = choose|d: int| #[trigger] leads(candidates, candidates.len() as int, d);
            assert(is_dominant(candidates, d));
        }
    }
}

/// Candidate `d` is the first of the first `n` with the largest family.
spec fn leads(candidates: Seq<CandidateView>, n: int, d: int) -> bool {
    &&& 0 <= d < n
    &&& forall|j: int|
        0 <= j < n ==> #[trigger] family_size(candidates, j) <= family_size(candidates, d)
    &&& forall|j: int|
        0 <= j < d ==> #[trigger] family_size(candidates, j) < family_size(candidates, d)
}

proof fn lemma_dominant_exists(candidates: Seq<CandidateView>, n: int)
    requires
        0 < n <= candidates.len(),
    ensures
        exists|d: int| #[trigger] leads(candidates, n, d),
    decreases n,
{
    if n == 1 {
        assert(leads(candidates, n, 0));
    } else {
        lemma_dominant_exists(candidates, n - 1);
        let d = choose|d: int| #[trigger] leads(candidates, n - 1, d);
        if family_size(candidates, n - 1) > family_size(candidates, d) {
            assert(leads(candidates, n, n - 1));
        } else {
            assert(leads(candidates, n, d));
        }
    }
}

proof fn lemma_family_complete(candidates: Seq<CandidateView>, family: Seq<char>, i: int)
    requires
        0 <= i < candidates.len(),
        candidates[i].family == family,
    ensures
        has_number(family_links(candidates, family), candidates[i].number),
    decreases candidates.len(),
{
    let links = family_links(candidates, family);
    let rest = candidates.drop_last();
    let before = family_links(rest, family);
    if i < rest.len() {
        lemma_family_complete(rest, family, i);
        let k = choose|k: int|
            0 <= k < before.len() && (#[trigger] before[k]).number == candidates[i].number;
        assert(links[k] == before[k]);
    } else if has_number(before, candidates[i].number) {
        assert(links == before);
    } else {
        assert(links[before.len() as int].number == candidates[i].number);
    }
}

/// Law: the chapters of a page are determined by its links.
pub proof fn law_chapters_unique(
    candidates: Seq<CandidateView>,
    a: Seq<ChapterLinkView>,
    b: Seq<ChapterLinkView>,
)
    requires
        dominant_chapters(candidates, a),
        dominant_chapters(candidates, b),
    ensures
        a == b,
{
    if exists|i: int| is_dominant(candidates, i) && family_size(candidates, i) >= 2 {
        lemma_ascending_unique(a, b);
    } else {
        assert(a =~= b);
    }
}

proof fn lemma_ascending_unique(a: Seq<ChapterLinkView>, b: Seq<ChapterLinkView>)
    requires
        a.to_multiset() == b.to_multiset(),
        ascending(a),
        ascending(b),
    ensures
        a == b,
    decreases a.len(),
{
    broadcast use vstd::seq_lib::group_to_multiset_ensures;

    assert(a.len() == a.to_multiset().len());
    assert(b.len() == b.to_multiset().len());
    if a.len() == 0 {
        assert(a =~= b);
    } else {
        assert(a.contains(a[0]) && b.contains(b[0]));
        assert(a.to_multiset().count(a[0]) > 0 && b.to_multiset().count(b[0]) > 0);
        assert(b.contains(a[0]) && a.contains(b[0]));
        let i = choose|i: int| 0 <= i < b.len() && b[i] == a[0];
        let j = choose|j: int| 0 <= j < a.len() && a[j] == b[0];
        assert(i > 0 ==> b[0].number.less(b[i].number));
        assert(j > 0 ==> a[0].number.less(a[j].number));
        assert(a[0] == b[0]);
        let a1 = a.remove(0);
        let b1 = b.remove(0);
        assert(a1.to_multiset() == b1.to_multiset());
        assert forall|i: int, j: int| 0 <= i < j < a1.len() implies (
        #[trigger] a1[i]).number.less((#[trigger] a1[j]).number) by {
            assert(a[i + 1].number.less(a[j + 1].number));
        }
        assert forall|i: int, j: int| 0 <= i < j < b1.len() implies (
        #[trigger] b1[i]).number.less((#[trigger] b1[j]).number) by {
            assert(b[i + 1].number.less(b[j + 1].number));
        }
        lemma_ascending_unique(a1, b1);
        assert(a =~= seq![a[0]] + a1);
        assert(b =~= seq![b[0]] + b1);
    }
}

/// Law: the cover of a page is an address of the web that some reference
/// resolves to, and where no image is given for sharing it is never one
/// of junk.
pub proof fn law_cover_is_web_address(page: PageView, base: SiteUrlView)
    requires
        cover_of_page(page, base) is Some,
    ensures
        exists|reference: Seq<char>| #[trigger]
            absolute(reference, base) == cover_of_page(page, base),
        shared_image(page.og_image_secure, base) is None && shared_image(page.og_image, base)
            is None && shared_image(page.twitter_image_name, base) is None && shared_image(
            page.twitter_image_property,
            base,
        ) is None ==> regex_is_match(BAD_IMAGE@, cover_of_page(page, base)->0) != Some(true),
{
    let url = cover_of_page(page, base)->0;
    if shared_image(page.og_image_secure, base) is Some {
        assert(absolute(first_content(page.og_image_secure)->0, base) == Some(url));
    } else if shared_image(page.og_image, base) is Some {
        assert(absolute(first_content(page.og_image)->0, base) == Some(url));
    } else if shared_image(page.twitter_image_name, base) is Some {
        assert(absolute(first_content(page.twitter_image_name)->0, base) == Some(url));
    } else if shared_image(page.twitter_image_property, base) is Some {
        assert(absolute(first_content(page.twitter_image_property)->0, base) == Some(url));
    } else {
        let covers = cover_candidates(page.images, base);
        lemma_preferred_member(covers);
        let c = choose|c: int| 0 <= c < covers.len() && (#[trigger] covers[c]).url == url;
        lemma_cover_member(page.images, base, c);
        let i = choose|i: int|
            0 <= i < page.images.len() && cover_candidate(#[trigger] page.images[i], base) == Some(
                covers[c],
            );
        assert(absolute(image_source(page.images[i])->0, base) == Some(url));
    }
}

proof fn lemma_preferred_member(covers: Seq<CoverView>)
    ensures
        preferred_cover(covers) is Some ==> exists|c: int|
            0 <= c < covers.len() && (#[trigger] covers[c]).url == preferred_cover(covers)->0,
{
    lemma_coverish_member(covers);
}

proof fn lemma_coverish_member(covers: Seq<CoverView>)
    ensures
        first_coverish(covers) is Some ==> exists|c: int|
            0 <= c < covers.len() && (#[trigger] covers[c]).url == first_coverish(covers)->0,
    decreases covers.len(),
{
    if covers.len() > 0 {
        if covers[0].coverish {
            assert(covers[0].url == first_coverish(covers)->0);
        } else {
            let rest = covers.drop_first();
            lemma_coverish_member(rest);
            if first_coverish(rest) is Some {
                let c = choose|c: int|
                    0 <= c < rest.len() && (#[trigger] rest[c]).url == first_coverish(rest)->0;
                assert(covers[c + 1] == rest[c]);
            }
        }
    }
}

/// Law: the preferred candidate is the first one that is called like a
/// cover, and the first one of all where none is.
pub proof fn law_first_cover_preferred(covers: Seq<CoverView>, i: int)
    requires
        0 <= i < covers.len(),
        forall|j: int| 0 <= j < i ==> !(#[trigger] covers[j]).coverish,
    ensures
        covers[i].coverish ==> preferred_cover(covers) == Some(covers[i].url),
        i == covers.len() - 1 && !covers[i].coverish ==> preferred_cover(covers) == Some(
            covers[0].url,
        ),
        preferred_cover(Seq::empty()) is None,
{
    lemma_first_coverish(covers, i);
}

proof fn lemma_first_coverish(covers: Seq<CoverView>, i: int)
    requires
        0 <= i < covers.len(),
        forall|j: int| 0 <= j < i ==> !(#[trigger] covers[j]).coverish,
    ensures
        covers[i].coverish ==> first_coverish(covers) == Some(covers[i].url),
        i == covers.len() - 1 && !covers[i].coverish ==> first_coverish(covers) is None,
    decreases covers.len(),
{
    let rest = covers.drop_first();
    if i > 0 {
        assert(!covers[0].coverish);
        assert forall|j: int| 0 <= j < i - 1 implies !(#[trigger] rest[j]).coverish by {
            assert(rest[j] == covers[j + 1]);
        }
        lemma_first_coverish(rest, i - 1);
    } else if !covers[0].coverish && covers.len() == 1 {
        assert(first_coverish(rest) is None);
    }
}

proof fn lemma_cover_member(images: Seq<ElementView>, base: SiteUrlView, c: int)
    requires
        0 <= c < cover_candidates(images, base).len(),
    ensures
        exists|i: int|
            0 <= i < images.len() && cover_candidate(#[trigger] images[i], base) == Some(
                cover_candidates(images, base)[c],
            ),
    decreases images.len(),
{
    let all = cover_candidates(images, base);
    let rest = images.drop_last();
    let before = cover_candidates(rest, base);
    if c < before.len() {
        lemma_cover_member(rest, base, c);
        let i = choose|i: int|
            0 <= i < rest.len() && cover_candidate(#[trigger] rest[i], base) == Some(before[c]);
        assert(rest[i] == images[i]);
    } else {
        assert(cover_candidate(images[images.len() - 1], base) == Some(all[c]));
    }
}

// ---------- laws: which links count ----------

/// The link leads to `u`: that is what its `href` resolves to on the page.
pub open spec fn leads_to(e: ElementView, base: SiteUrlView, u: SiteUrlView) -> bool {
    &&& e.attributes.len() == 6
    &&& e.attributes[5] is Some
    &&& joined_url(base.text, trim(e.attributes[5]->0)) == Some(u)
}

/// Law: a link counts exactly where it leads to an address of the web, on a
/// host that is related to that of the page, that names a chapter, be it by
/// a keyword or by a bare number. It counts with the family and the number
/// that its address has on the host of the page, and with its address
/// without the fragment.
pub proof fn law_link_counts(e: ElementView, base: SiteUrlView, u: SiteUrlView)
    requires
        leads_to(e, base, u),
    ensures
        u.host is Some && base.host is Some && related(u.host->0, base.host->0) && (u.scheme
            == seq!['h', 't', 't', 'p'] || u.scheme == seq!['h', 't', 't', 'p', 's'])
            && info_of_url_on(u, base.host->0) is Some ==> candidates_of(seq![e], base) == seq![
            CandidateView {
                family: info_of_url_on(u, base.host->0)->0.family,
                number: info_of_url_on(u, base.host->0)->0.number,
                url: unfragmented_url(u.text),
            },
        ],
        u.host is None || base.host is None || !related(u.host->0, base.host->0) || (u.scheme
            != seq!['h', 't', 't', 'p'] && u.scheme != seq!['h', 't', 't', 'p', 's'])
            || info_of_url_on(u, base.host->0) is None ==> candidates_of(seq![e], base).len() == 0,
{
    lemma_schemes();
    reveal_with_fuel(candidates_of, 2);
    let none = Seq::<ElementView>::empty();
    assert(seq![e].drop_last() =~= none);
    assert(candidates_of(none, base) =~= Seq::<CandidateView>::empty());
    if let Some(c) = candidate_of(e, base) {
        assert(Seq::<CandidateView>::empty().push(c) =~= seq![c]);
    }
}

/// Law: a link without a `href`, or with one that does not resolve, does
/// not count.
pub proof fn law_dead_link(e: ElementView, base: SiteUrlView)
    requires
        e.attributes.len() == 6,
        e.attributes[5] is Some ==> joined_url(base.text, trim(e.attributes[5]->0)) is None,
    ensures
        candidates_of(seq![e], base).len() == 0,
{
    reveal_with_fuel(candidates_of, 2);
    assert(seq![e].drop_last() =~= Seq::<ElementView>::empty());
}

/// Law: the links count one by one and in their order.
pub proof fn law_links_in_order(a: Seq<ElementView>, b: Seq<ElementView>, base: SiteUrlView)
    ensures
        candidates_of(a + b, base) == candidates_of(a, base) + candidates_of(b, base),
    decreases b.len(),
{
    if b.len() == 0 {
        assert(a + b =~= a);
        assert(candidates_of(a, base) + candidates_of(b, base) =~= candidates_of(a, base));
    } else {
        assert((a + b).drop_last() =~= a + b.drop_last());
        law_links_in_order(a, b.drop_last(), base);
        if let Some(c) = candidate_of(b.last(), base) {
            let x = candidates_of(a, base);
            let y = candidates_of(b.drop_last(), base);
            assert((x + y).push(c) =~= x + y.push(c));
        }
    }
}

/// Law: every link of a page that leads to an address of its site naming a
/// chapter is among the candidates, wherever it stands.
pub proof fn law_candidates_complete(
    links: Seq<ElementView>,
    base: SiteUrlView,
    i: int,
    u: SiteUrlView,
)
    requires
        0 <= i < links.len(),
        leads_to(links[i], base, u),
        u.host is Some,
        base.host is Some,
        related(u.host->0, base.host->0),
        u.scheme == seq!['h', 't', 't', 'p'] || u.scheme == seq!['h', 't', 't', 'p', 's'],
        info_of_url_on(u, base.host->0) is Some,
    ensures
        exists|k: int| #![trigger candidates_of(links, base)[k]]
            0 <= k < candidates_of(links, base).len() && candidates_of(links, base)[k].family
                == info_of_url_on(u, base.host->0)->0.family && candidates_of(
                links,
                base,
            )[k].number == info_of_url_on(u, base.host->0)->0.number && candidates_of(
                links,
                base,
            )[k].url == unfragmented_url(u.text),
{
    let a = links.take(i);
    let e = seq![links[i]];
    let b = links.skip(i + 1);
    assert(links =~= a + e + b);
    law_links_in_order(a + e, b, base);
    law_links_in_order(a, e, base);
    law_link_counts(links[i], base, u);
    let k = candidates_of(a, base).len() as int;
    assert(candidates_of(links, base)[k] == candidates_of(e, base)[0]);
}

proof fn lemma_schemes()
    ensures
        "http"@ == seq!['h', 't', 't', 'p'],
        "https"@ == seq!['h', 't', 't', 'p', 's'],
{
    reveal_strlit("http");
    reveal_strlit("https");
    assert("http"@ =~= seq!['h', 't', 't', 'p']);
    assert("https"@ =~= seq!['h', 't', 't', 'p', 's']);
}

// ---------- laws: which family is kept ----------

/// Candidate `i` is the first of its family with its number.
pub open spec fn first_of_number(candidates: Seq<CandidateView>, i: int) -> bool {
    &&& 0 <= i < candidates.len()
    &&& forall|j: int|
        0 <= j < i ==> (#[trigger] candidates[j]).family != candidates[i].family
            || candidates[j].number != candidates[i].number
}

/// Law: the chapters are those of one family. Each is the first link of the
/// family with its number, and each such link is there.
pub proof fn law_one_family_kept(candidates: Seq<CandidateView>, chapters: Seq<ChapterLinkView>)
    requires
        dominant_chapters(candidates, chapters),
        chapters.len() > 0,
    ensures
        exists|family: Seq<char>| #[trigger] is_family_list(candidates, chapters, family),
{
    broadcast use vstd::seq_lib::group_to_multiset_ensures;

    let d = choose|i: int| is_dominant(candidates, i);
    let family = candidates[d].family;
    let links = family_links(candidates, family);
    assert forall|k: int| 0 <= k < chapters.len() implies is_given(
        candidates,
        family,
        #[trigger] chapters[k],
    ) by {
        assert(chapters.contains(chapters[k]));
        assert(chapters.to_multiset().count(chapters[k]) > 0);
        assert(links.contains(chapters[k]));
        let l = choose|l: int| 0 <= l < links.len() && links[l] == chapters[k];
        lemma_family_first(candidates, family, l);
    }
    assert forall|i: int, link: ChapterLinkView| #[trigger]
        gives(candidates, family, i, link) implies chapters.contains(link) by {
        lemma_first_in_family(candidates, family, i);
        let l = choose|l: int| 0 <= l < links.len() && #[trigger] links[l] == link;
        assert(links.contains(links[l]));
        assert(links.to_multiset().count(link) > 0);
    }
    assert(is_family_list(candidates, chapters, family));
}

/// Candidate `i` is the first of the family with its number, and `link` is
/// its link.
pub open spec fn gives(
    candidates: Seq<CandidateView>,
    family: Seq<char>,
    i: int,
    link: ChapterLinkView,
) -> bool {
    &&& first_of_number(candidates, i)
    &&& candidates[i].family == family
    &&& link.number == candidates[i].number
    &&& link.url == candidates[i].url
}

/// The chapters are the first links of the family, one for each number.
pub open spec fn is_family_list(
    candidates: Seq<CandidateView>,
    chapters: Seq<ChapterLinkView>,
    family: Seq<char>,
) -> bool {
    &&& forall|k: int|
        0 <= k < chapters.len() ==> is_given(candidates, family, #[trigger] chapters[k])
    &&& forall|i: int, link: ChapterLinkView| #[trigger]
        gives(candidates, family, i, link) ==> chapters.contains(link)
}

/// Some candidate of the family gives the link.
pub open spec fn is_given(
    candidates: Seq<CandidateView>,
    family: Seq<char>,
    link: ChapterLinkView,
) -> bool {
    exists|i: int| gives(candidates, family, i, link)
}

proof fn lemma_family_first(candidates: Seq<CandidateView>, family: Seq<char>, l: int)
    requires
        0 <= l < family_links(candidates, family).len(),
    ensures
        exists|i: int| #[trigger]
            gives(candidates, family, i, family_links(candidates, family)[l]),
    decreases candidates.len(),
{
    let links = family_links(candidates, family);
    let rest = candidates.drop_last();
    let before = family_links(rest, family);
    if l < before.len() {
        lemma_family_first(rest, family, l);
        let i = choose|i: int| #[trigger] gives(rest, family, i, before[l]);
        assert(rest[i] == candidates[i]);
        assert(first_of_number(candidates, i)) by {
            assert forall|j: int| 0 <= j < i implies (#[trigger] candidates[j]).family
                != candidates[i].family || candidates[j].number != candidates[i].number by {
                assert(rest[j] == candidates[j]);
            }
        }
        assert(gives(candidates, family, i, links[l]));
    } else {
        let i = candidates.len() - 1;
        assert(first_of_number(candidates, i)) by {
            assert forall|j: int| 0 <= j < i implies (#[trigger] candidates[j]).family
                != candidates[i].family || candidates[j].number != candidates[i].number by {
                if candidates[j].family == family && candidates[j].number == candidates[i].number {
                    assert(rest[j] == candidates[j]);
                    lemma_family_complete(rest, family, j);
                }
            }
        }
        assert(gives(candidates, family, i, links[l]));
    }
}

proof fn lemma_first_in_family(candidates: Seq<CandidateView>, family: Seq<char>, i: int)
    requires
        first_of_number(candidates, i),
        candidates[i].family == family,
    ensures
        exists|l: int|
            0 <= l < family_links(candidates, family).len() && #[trigger] family_links(
                candidates,
                family,
            )[l] == as_link(candidates[i]),
    decreases candidates.len(),
{
    let links = family_links(candidates, family);
    let rest = candidates.drop_last();
    let before = family_links(rest, family);
    if i < rest.len() {
        assert(rest[i] == candidates[i]);
        assert(first_of_number(rest, i)) by {
            assert forall|j: int| 0 <= j < i implies (#[trigger] rest[j]).family != rest[i].family
                || rest[j].number != rest[i].number by {
                assert(rest[j] == candidates[j]);
            }
        }
        lemma_first_in_family(rest, family, i);
        let l = choose|l: int|
            0 <= l < before.len() && #[trigger] before[l] == as_link(rest[i]);
        assert(links[l] == before[l]);
    } else {
        if has_number(before, candidates[i].number) {
            let l = choose|l: int|
                0 <= l < before.len() && (#[trigger] before[l]).number == candidates[i].number;
            lemma_family_member(rest, family, l);
            let j = choose|j: int|
                0 <= j < rest.len() && rest[j].family == family && before[l] == as_link(
                    #[trigger] rest[j],
                );
            assert(rest[j] == candidates[j]);
            assert(false);
        }
        assert(links[before.len() as int] == as_link(candidates[i]));
    }
}

/// The candidates at the given places are of one family and have different
/// numbers.
pub open spec fn distinct_chapters(candidates: Seq<CandidateView>, picks: Seq<int>) -> bool {
    &&& forall|a: int| 0 <= a < picks.len() ==> 0 <= #[trigger] picks[a] < candidates.len()
    &&& forall|a: int, b: int|
        0 <= a < b < picks.len() ==> candidates[#[trigger] picks[a]].family
            == candidates[#[trigger] picks[b]].family && candidates[picks[a]].number
            != candidates[picks[b]].number
}

/// Law: no family of the page has more chapters than were kept, and two
/// chapters of a family are enough for chapters to be kept.
pub proof fn law_largest_family_kept(
    candidates: Seq<CandidateView>,
    chapters: Seq<ChapterLinkView>,
    picks: Seq<int>,
)
    requires
        dominant_chapters(candidates, chapters),
        distinct_chapters(candidates, picks),
        picks.len() >= 2,
    ensures
        chapters.len() >= picks.len(),
{
    let i = picks[0];
    let family = candidates[i].family;
    let links = family_links(candidates, family);
    let numbers = Seq::new(picks.len(), |a: int| candidates[picks[a]].number);
    let known = Seq::new(links.len(), |l: int| links[l].number);
    assert forall|a: int| 0 <= a < picks.len() implies candidates[#[trigger] picks[a]].family
        == family by {
        if a > 0 {
            assert(candidates[picks[0]].family == candidates[picks[a]].family);
        }
    }
    assert(numbers.no_duplicates()) by {
        assert forall|a: int, b: int|
            0 <= a < numbers.len() && 0 <= b < numbers.len() && a != b implies numbers[a]
            != numbers[b] by {
            if a < b {
                assert(candidates[picks[a]].number != candidates[picks[b]].number);
            } else {
                assert(candidates[picks[b]].number != candidates[picks[a]].number);
            }
        }
    }
    assert forall|a: int| 0 <= a < numbers.len() implies known.contains(#[trigger] numbers[a]) by {
        assert(candidates[picks[a]].family == family);
        lemma_family_complete(candidates, family, picks[a]);
        let l = choose|l: int|
            0 <= l < links.len() && (#[trigger] links[l]).number == candidates[picks[a]].number;
        assert(known[l] == numbers[a]);
    }
    lemma_contained_len(numbers, known);
    assert(family_size(candidates, i) == links.len());
    law_chapters_complete(candidates, chapters);
    assert(family_size(candidates, i) >= 2);
}

/// A sequence without duplicates is no longer than one that has all of it.
proof fn lemma_contained_len(a: Seq<Decimal>, b: Seq<Decimal>)
    requires
        a.no_duplicates(),
        forall|i: int| 0 <= i < a.len() ==> b.contains(#[trigger] a[i]),
    ensures
        a.len() <= b.len(),
    decreases a.len(),
{
    if a.len() > 0 {
        let x = a.last();
        assert(b.contains(a[a.len() - 1]));
        let k = choose|k: int| 0 <= k < b.len() && b[k] == x;
        let rest = a.drop_last();
        let others = b.remove(k);
        assert forall|i: int| 0 <= i < rest.len() implies others.contains(#[trigger] rest[i]) by {
            assert(b.contains(a[i]));
            let j = choose|j: int| 0 <= j < b.len() && b[j] == a[i];
            assert(a[i] != a[a.len() - 1]);
            assert(j != k);
            if j < k {
                assert(others[j] == b[j]);
            } else {
                assert(others[j - 1] == b[j]);
            }
        }
        lemma_contained_len(rest, others);
    }
}

// ---------- laws: references, contents and titles ----------

/// Law: a reference is resolved without the white space around it. It has
/// an address exactly where it is not blank, is no inline data, and
/// resolves to an address of the web.
pub proof fn law_absolute(raw: Seq<char>, base: SiteUrlView)
    ensures
        is_blank(raw) ==> absolute(raw, base) is None,
        begins(trim(raw), seq!['d', 'a', 't', 'a', ':']) ==> absolute(raw, base) is None,
        joined_url(base.text, trim(raw)) is None ==> absolute(raw, base) is None,
        joined_url(base.text, trim(raw)) matches Some(u) ==> (if !is_blank(raw) && !begins(
            trim(raw),
            seq!['d', 'a', 't', 'a', ':'],
        ) && (u.scheme == seq!['h', 't', 't', 'p'] || u.scheme == seq!['h', 't', 't', 'p', 's']) {
            absolute(raw, base) == Some(u.text)
        } else {
            absolute(raw, base) is None
        }),
{
    lemma_schemes();
    reveal_strlit("data:");
    assert("data:"@ =~= seq!['d', 'a', 't', 'a', ':']);
    lemma_trim_blank(raw);
}

proof fn lemma_trim_blank(s: Seq<char>)
    ensures
        trim(s).len() == 0 <==> is_blank(s),
{
    let front = strip_front(s, CharClass::White);
    lemma_blank(s);
    lemma_strip_front(s, CharClass::White);
    lemma_strip_back(front, CharClass::White);
    if front.len() > 0 {
        lemma_front_stays(front);
    }
}

proof fn lemma_front_stays(s: Seq<char>)
    requires
        s.len() > 0,
        !CharClass::White.has(s[0]),
    ensures
        strip_back(s, CharClass::White).len() > 0,
    decreases s.len(),
{
    if CharClass::White.has(s.last()) {
        assert(s.len() > 1);
        assert(s.drop_last()[0] == s[0]);
        lemma_front_stays(s.drop_last());
    }
}

/// An element without a content, or with a blank one.
pub open spec fn says_nothing(e: ElementView) -> bool {
    e.attributes.len() == 6 && (e.attributes[0] is None || is_blank(e.attributes[0]->0))
}

/// Law: the content of elements is that of the first one that says
/// something, without the white space around it.
pub proof fn law_first_content(a: Seq<ElementView>, e: ElementView, b: Seq<ElementView>)
    requires
        forall|i: int| 0 <= i < a.len() ==> says_nothing(#[trigger] a[i]),
        e.attributes.len() == 6,
        e.attributes[0] is Some,
        !is_blank(e.attributes[0]->0),
    ensures
        first_content(a + seq![e] + b) == Some(trim(e.attributes[0]->0)),
        first_content(a) is None,
    decreases a.len(),
{
    let all = a + seq![e] + b;
    lemma_trim_blank(e.attributes[0]->0);
    if a.len() == 0 {
        assert(all[0] == e);
    } else {
        assert(says_nothing(a[0]));
        assert(all[0] == a[0]);
        if a[0].attributes[0] is Some {
            lemma_trim_blank(a[0].attributes[0]->0);
        }
        assert(all.drop_first() =~= a.drop_first() + seq![e] + b);
        law_first_content(a.drop_first(), e, b);
    }
}

/// Law: the title of a page is the one that it gives for sharing, else the
/// name of the site that it gives, else its own title, cleaned; a page
/// without any of them, or whose cleaned title is empty, is an untitled
/// manga.
pub proof fn law_title_order(page: PageView)
    ensures
        first_content(page.og_title) matches Some(t) ==> raw_title(page) == t,
        first_content(page.og_title) is None ==> (first_content(page.og_site_name) matches Some(t)
            ==> raw_title(page) == t),
        first_content(page.og_title) is None && first_content(page.og_site_name) is None
            && page.title.len() > 0 ==> raw_title(page) == page.title[0].text,
        first_content(page.og_title) is None && first_content(page.og_site_name) is None
            && page.title.len() == 0 ==> raw_title(page).len() == 0,
        cleaned_title(raw_title(page)).len() == 0 ==> title_of_page(page) == "Untitled manga"@,
        cleaned_title(raw_title(page)).len() > 0 ==> title_of_page(page) == cleaned_title(
            raw_title(page),
        ),
{
}

// ---------- laws: the cover ----------

/// The image comes from `source` and has the class `class`: the source is
/// the `src`, or else the `data-src`, or else the `data-lazy-src`.
pub open spec fn shows(e: ElementView, source: Seq<char>, class: Seq<char>) -> bool {
    &&& e.attributes.len() == 6
    &&& {
        ||| e.attributes[1] == Some(source)
        ||| e.attributes[1] is None && e.attributes[2] == Some(source)
        ||| e.attributes[1] is None && e.attributes[2] is None && e.attributes[3] == Some(source)
    }
    &&& e.attributes[4] == Some(class) || (e.attributes[4] is None && class.len() == 0)
}

/// Law: an image counts where its source has an address that is not one of
/// junk, and is called like a cover where the pattern finds a hint in its
/// source, in its class, or across both with a space between.
pub proof fn law_image_counts(
    e: ElementView,
    base: SiteUrlView,
    source: Seq<char>,
    class: Seq<char>,
)
    requires
        shows(e, source, class),
    ensures
        absolute(source, base) is None ==> cover_candidates(seq![e], base).len() == 0,
        absolute(source, base) matches Some(url) ==> (if regex_is_match(BAD_IMAGE@, url) == Some(
            true,
        ) {
            cover_candidates(seq![e], base).len() == 0
        } else {
            &&& cover_candidates(seq![e], base).len() == 1
            &&& cover_candidates(seq![e], base)[0].url == url
            &&& cover_candidates(seq![e], base)[0].coverish <==> regex_is_match(
                COVER_HINT@,
                source + seq![' '] + class,
            ) == Some(true)
        }),
{
    reveal_strlit(" ");
    assert(" "@ =~= seq![' ']);
    reveal_with_fuel(cover_candidates, 2);
    assert(seq![e].drop_last() =~= Seq::<ElementView>::empty());
    if e.attributes[4] is None {
        assert(class =~= Seq::<char>::empty());
    }
    assert(image_source(e) == Some(source));
    assert(image_hint(e, source) =~= source + seq![' '] + class);
}

/// Law: an image without a source does not count.
pub proof fn law_image_without_source(e: ElementView, base: SiteUrlView)
    requires
        e.attributes.len() == 6,
        e.attributes[1] is None,
        e.attributes[2] is None,
        e.attributes[3] is None,
    ensures
        cover_candidates(seq![e], base).len() == 0,
{
    reveal_with_fuel(cover_candidates, 2);
    assert(seq![e].drop_last() =~= Seq::<ElementView>::empty());
}

/// Law: the images count one by one and in their order.
pub proof fn law_images_in_order(a: Seq<ElementView>, b: Seq<ElementView>, base: SiteUrlView)
    ensures
        cover_candidates(a + b, base) == cover_candidates(a, base) + cover_candidates(b, base),
    decreases b.len(),
{
    if b.len() == 0 {
        assert(a + b =~= a);
        assert(cover_candidates(a, base) + cover_candidates(b, base) =~= cover_candidates(a, base));
    } else {
        assert((a + b).drop_last() =~= a + b.drop_last());
        law_images_in_order(a, b.drop_last(), base);
        if let Some(c) = cover_candidate(b.last(), base) {
            let x = cover_candidates(a, base);
            let y = cover_candidates(b.drop_last(), base);
            assert((x + y).push(c) =~= x + y.push(c));
        }
    }
}

/// The address of the first content of the elements, where it has one.
pub open spec fn shared_at(elements: Seq<ElementView>, base: SiteUrlView, url: Seq<char>) -> bool {
    first_content(elements) is Some && absolute(first_content(elements)->0, base) == Some(url)
}

/// The elements give no image for sharing, or one without an address.
pub open spec fn shares_none(elements: Seq<ElementView>, base: SiteUrlView) -> bool {
    first_content(elements) is Some ==> absolute(first_content(elements)->0, base) is None
}

/// Law: the cover is the image given for sharing over a secure connection,
/// else the one given for sharing, else the ones given for Twitter by name
/// and by property, each where it has an address; only a page without any
/// of these has its cover picked from its images.
pub proof fn law_cover_order(page: PageView, base: SiteUrlView, url: Seq<char>)
    ensures
        shared_at(page.og_image_secure, base, url) ==> cover_of_page(page, base) == Some(url),
        shares_none(page.og_image_secure, base) && shared_at(page.og_image, base, url)
            ==> cover_of_page(page, base) == Some(url),
        shares_none(page.og_image_secure, base) && shares_none(page.og_image, base) && shared_at(
            page.twitter_image_name,
            base,
            url,
        ) ==> cover_of_page(page, base) == Some(url),
        shares_none(page.og_image_secure, base) && shares_none(page.og_image, base) && shares_none(
            page.twitter_image_name,
            base,
        ) && shared_at(page.twitter_image_property, base, url) ==> cover_of_page(page, base)
            == Some(url),
        shares_none(page.og_image_secure, base) && shares_none(page.og_image, base) && shares_none(
            page.twitter_image_name,
            base,
        ) && shares_none(page.twitter_image_property, base) ==> cover_of_page(page, base)
            == preferred_cover(cover_candidates(page.images, base)),
{
}

/// Law: among the images the cover is the first that is called like one,
/// whatever else precedes or follows it.
pub proof fn law_first_coverish_image(
    a: Seq<ElementView>,
    e: ElementView,
    b: Seq<ElementView>,
    base: SiteUrlView,
    source: Seq<char>,
    class: Seq<char>,
    url: Seq<char>,
)
    requires
        shows(e, source, class),
        absolute(source, base) == Some(url),
        regex_is_match(BAD_IMAGE@, url) != Some(true),
        regex_is_match(COVER_HINT@, source + seq![' '] + class) == Some(true),
        forall|i: int|
            0 <= i < cover_candidates(a, base).len() ==> !(#[trigger] cover_candidates(
                a,
                base,
            )[i]).coverish,
    ensures
        preferred_cover(cover_candidates(a + seq![e] + b, base)) == Some(url),
{
    law_images_in_order(a + seq![e], b, base);
    law_images_in_order(a, seq![e], base);
    law_image_counts(e, base, source, class);
    let covers = cover_candidates(a + seq![e] + b, base);
    let x = cover_candidates(a, base);
    let i = x.len() as int;
    assert(covers[i] == cover_candidates(seq![e], base)[0]);
    assert forall|j: int| 0 <= j < i implies !(#[trigger] covers[j]).coverish by {
        assert(covers[j] == x[j]);
    }
    law_first_cover_preferred(covers, i);
}

/// Law: what is looked at in a page, and the patterns that judge images.
pub proof fn law_page_parts(html: Seq<char>)
    ensures
        ({
            let names = seq!["content"@, "src"@, "data-src"@, "data-lazy-src"@, "class"@, "href"@];
            let page = page_of(html);
            &&& page.og_title == selected(html, r#"meta[property="og:title"]"#@, names)
            &&& page.og_site_name == selected(html, r#"meta[property="og:site_name"]"#@, names)
            &&& page.title == selected(html, "title"@, names)
            &&& page.og_image_secure == selected(
                html,
                r#"meta[property="og:image:secure_url"]"#@,
                names,
            )
            &&& page.og_image == selected(html, r#"meta[property="og:image"]"#@, names)
            &&& page.twitter_image_name == selected(html, r#"meta[name="twitter:image"]"#@, names)
            &&& page.twitter_image_property == selected(
                html,
                r#"meta[property="twitter:image"]"#@,
                names,
            )
            &&& page.images == selected(html, "img"@, names)
            &&& page.links == selected(html, "a[href]"@, names)
        }),
        BAD_IMAGE@
            == r"(?i)(?:^|[/_.-])(?:ad|ads|advert|banner|logo|avatar|favicon|sprite|icon|placeholder|loader|tracking|pixel|analytics)(?:[/_.-]|$)"@,
        COVER_HINT@ == r"(?i)cover|poster|thumb|portrait"@,
{
}

} // verus!
