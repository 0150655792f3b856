use scanlation::address::SiteUrl;
use scanlation::extract::{
    absolutize, chapter_candidate, extract_site_info, meta_content, pick_cover, pick_title,
    placeholder_title, read_page, select_chapters, ChapterCandidate, ChapterLink, CoverCandidate,
    SiteInfo,
};
use scanlation::number::ChapterNumber;

fn base() -> SiteUrl {
    SiteUrl::parse("https://zom-100.example/").unwrap()
}

/// The chapter number with the value of the float.
fn num(x: f64) -> ChapterNumber {
    ChapterNumber::parse(&format!("{}", x)).unwrap()
}

/// The number as a float.
fn value(n: &ChapterNumber) -> f64 {
    n.to_decimal().parse().unwrap()
}

const HOMEPAGE: &str = r##"
    <html><head>
      <title>Zom 100: Bucket List of the Dead | Read Manga Online</title>
      <meta property="og:image" content="/wp-content/uploads/cover.jpg">
    </head><body>
      <a href="/category/news/">News</a>
      <a href="/page/2/">Older posts</a>
      <a href="https://other-site.example/manga/foo-chapter-1/">off-site</a>
      <a href="https://w6.zom-100.example/manga/zom-100-chapter-12/">Chapter 12 on the new mirror</a>
      <a href="/manga/zom-100-chapter-1/">Chapter 1</a>
      <a href="/manga/zom-100-chapter-2/">Chapter 2</a>
      <a href="/manga/zom-100-chapter-2/#comments">Chapter 2 comments</a>
      <a href="/manga/zom-100-chapter-10-5/">Chapter 10.5</a>
      <a href="/manga/zom-100-chapter-11/">Chapter 11</a>
    </body></html>
    "##;

#[test]
fn extracts_cleaned_title() {
    let info = extract_site_info(HOMEPAGE, &base());
    assert_eq!(info.title, "Zom 100: Bucket List of the Dead");
}

#[test]
fn extracts_absolute_cover_from_og_image() {
    let info = extract_site_info(HOMEPAGE, &base());
    assert_eq!(
        info.cover_url.as_deref(),
        Some("https://zom-100.example/wp-content/uploads/cover.jpg")
    );
}

#[test]
fn extracts_dominant_chapter_family_sorted_and_deduped() {
    let info = extract_site_info(HOMEPAGE, &base());
    let numbers: Vec<f64> = info.chapters.iter().map(|c| value(&c.number)).collect();
    assert_eq!(numbers, vec![1.0, 2.0, 10.5, 11.0, 12.0]);
    assert_eq!(
        info.latest_chapter().unwrap().url,
        "https://w6.zom-100.example/manga/zom-100-chapter-12/"
    );
}

#[test]
fn ignores_offsite_and_pagination_links() {
    let info = extract_site_info(HOMEPAGE, &base());
    assert!(info
        .chapters
        .iter()
        .all(|c| c.url.contains("zom-100.example/manga/")));
    assert!(!info.chapters.iter().any(|c| c.url.contains("other-site")));
}

#[test]
fn next_chapter_after_picks_first_newer() {
    let info = extract_site_info(HOMEPAGE, &base());
    assert_eq!(value(&info.next_chapter_after(&num(2.0)).unwrap().number), 10.5);
    assert_eq!(value(&info.next_chapter_after(&num(11.0)).unwrap().number), 12.0);
    assert!(info.next_chapter_after(&num(12.0)).is_none());
}

#[test]
fn single_numbered_link_is_treated_as_noise() {
    let html = r#"<a href="/blog/post-7/">post</a>"#;
    let info = extract_site_info(html, &base());
    assert!(info.chapters.is_empty());
}

#[test]
fn cover_falls_back_to_coverish_img() {
    let html = r##"
          <img src="/img/banner-ad.png">
          <img class="cover" data-src="/img/vol1-cover.webp">
        "##;
    let info = extract_site_info(html, &base());
    assert_eq!(
        info.cover_url.as_deref(),
        Some("https://zom-100.example/img/vol1-cover.webp")
    );
}

#[test]
fn missing_everything_yields_placeholder_title() {
    let info = extract_site_info("<html></html>", &base());
    assert_eq!(info.title, "Untitled manga");
    assert!(info.cover_url.is_none());
    assert!(info.chapters.is_empty());
}

// ---------- the page ----------

#[test]
fn page_elements_are_read_in_order() {
    let page = read_page(HOMEPAGE);
    assert_eq!(page.title.len(), 1);
    assert_eq!(page.title[0].text, "Zom 100: Bucket List of the Dead | Read Manga Online");
    assert_eq!(page.links.len(), 9);
    assert_eq!(page.links[0].attributes[5].as_deref(), Some("/category/news/"));
    assert_eq!(page.links[8].attributes[5].as_deref(), Some("/manga/zom-100-chapter-11/"));
    assert_eq!(page.links[8].attributes[1], None);
    assert_eq!(page.og_image.len(), 1);
    assert_eq!(
        page.og_image[0].attributes[0].as_deref(),
        Some("/wp-content/uploads/cover.jpg")
    );
    assert!(page.images.is_empty());
}

#[test]
fn first_content_that_is_not_blank_counts() {
    let html = r#"
        <meta property="og:title" content="  ">
        <meta property="og:title">
        <meta property="og:title" content=" Berserk ">
        <meta property="og:title" content="Other">
        "#;
    let page = read_page(html);
    assert_eq!(meta_content(&page.og_title), Some("Berserk".to_string()));
    assert_eq!(meta_content(&page.og_site_name), None);
}

#[test]
fn titles_are_taken_in_order_of_preference() {
    let all = r#"<title>page</title>
        <meta property="og:site_name" content="site">
        <meta property="og:title" content="shared">"#;
    assert_eq!(pick_title(&read_page(all)), "shared");
    let site = r#"<title>page</title><meta property="og:site_name" content="site">"#;
    assert_eq!(pick_title(&read_page(site)), "site");
    assert_eq!(pick_title(&read_page("<title>pa<b>ge</title>")), "pa<b>ge");
    assert_eq!(pick_title(&read_page("")), "");
    assert_eq!(placeholder_title(String::new()), "Untitled manga");
    assert_eq!(placeholder_title("x".to_string()), "x");
}

// ---------- the cover ----------

#[test]
fn references_resolve_to_web_addresses() {
    assert_eq!(absolutize(" /a.png ", &base()).as_deref(), Some("https://zom-100.example/a.png"));
    assert_eq!(absolutize("", &base()), None);
    assert_eq!(absolutize("  ", &base()), None);
    assert_eq!(absolutize("data:image/png;base64,AA", &base()), None);
    assert_eq!(absolutize("ftp://x.example/a.png", &base()), None);
    assert_eq!(absolutize("http://[", &base()), None);
}

#[test]
fn shared_images_are_taken_in_order_of_preference() {
    let cover = |html: &str| extract_site_info(html, &base()).cover_url;
    let og = r#"<meta property="og:image" content="/og.png">"#;
    let secure = r#"<meta property="og:image:secure_url" content="/secure.png">"#;
    let name = r#"<meta name="twitter:image" content="/name.png">"#;
    let property = r#"<meta property="twitter:image" content="/property.png">"#;
    let bad = r#"<meta property="og:image:secure_url" content="data:x">"#;
    let at = |file: &str| Some(format!("https://zom-100.example/{}", file));
    assert_eq!(cover(&format!("{}{}{}{}", property, name, og, secure)), at("secure.png"));
    assert_eq!(cover(&format!("{}{}{}", property, name, og)), at("og.png"));
    assert_eq!(cover(&format!("{}{}", property, name)), at("name.png"));
    assert_eq!(cover(property), at("property.png"));
    // One that does not resolve is passed over.
    assert_eq!(cover(&format!("{}{}", bad, og)), at("og.png"));
}

#[test]
fn images_are_preferred_by_what_they_are_called() {
    let cover = |html: &str| extract_site_info(html, &base()).cover_url;
    let at = |file: &str| Some(format!("https://zom-100.example/{}", file));
    assert_eq!(cover(r#"<img src="/a.png"><img src="/b.png">"#), at("a.png"));
    assert_eq!(cover(r#"<img src="/a.png"><img class="Poster" src="/b.png">"#), at("b.png"));
    assert_eq!(
        cover(r#"<img src="/cover1.png"><img src="/cover2.png"><img src="/c.png">"#),
        at("cover1.png")
    );
    assert_eq!(cover(r#"<img src="/logo.png"><img data-lazy-src="/d.png">"#), at("d.png"));
    assert_eq!(cover(r#"<img src="/site-logo.png">"#), None);
    assert_eq!(cover(r#"<img alt="cover">"#), None);
}

#[test]
fn first_of_two_covers_is_taken() {
    let html = "<img class='cover' src='/img/a.jpg'><img class='cover' src='/img/b.jpg'>";
    assert_eq!(
        extract_site_info(html, &base()).cover_url.as_deref(),
        Some("https://zom-100.example/img/a.jpg")
    );
}

#[test]
fn preferred_cover_of_given_images() {
    let image = |url: &str, coverish: bool| CoverCandidate { url: url.to_string(), coverish };
    assert_eq!(pick_cover(&Vec::new()), None);
    assert_eq!(pick_cover(&vec![image("a", false), image("b", false)]), Some("a".to_string()));
    assert_eq!(
        pick_cover(&vec![image("a", false), image("b", true), image("c", false)]),
        Some("b".to_string())
    );
    assert_eq!(
        pick_cover(&vec![image("a", false), image("b", true), image("c", true)]),
        Some("b".to_string())
    );
}

// ---------- the chapters ----------

fn candidate(family: &str, number: &str, url: &str) -> ChapterCandidate {
    ChapterCandidate {
        family: family.to_string(),
        number: ChapterNumber::parse(number).unwrap(),
        url: url.to_string(),
    }
}

fn shown(chapters: &Vec<ChapterLink>) -> Vec<(String, String)> {
    chapters.iter().map(|c| (c.number.to_decimal(), c.url.clone())).collect()
}

fn pairs(list: &[(&str, &str)]) -> Vec<(String, String)> {
    list.iter().map(|(n, u)| (n.to_string(), u.to_string())).collect()
}

#[test]
fn largest_family_is_kept() {
    let candidates = vec![
        candidate("a", "1", "a1"),
        candidate("b", "3", "b3"),
        candidate("a", "1", "a1-again"),
        candidate("b", "2.5", "b2.5"),
        candidate("a", "2", "a2"),
        candidate("b", "10", "b10"),
    ];
    assert_eq!(
        shown(&select_chapters(&candidates)),
        pairs(&[("2.5", "b2.5"), ("3", "b3"), ("10", "b10")])
    );
}

#[test]
fn first_of_two_families_of_a_size_is_kept() {
    let candidates = vec![
        candidate("b", "2", "b2"),
        candidate("a", "1", "a1"),
        candidate("a", "2", "a2"),
        candidate("b", "1", "b1"),
    ];
    assert_eq!(shown(&select_chapters(&candidates)), pairs(&[("1", "b1"), ("2", "b2")]));
}

#[test]
fn one_chapter_alone_is_noise() {
    assert!(select_chapters(&Vec::new()).is_empty());
    let twice = vec![candidate("a", "1", "x"), candidate("a", "1", "y"), candidate("b", "2", "z")];
    assert!(select_chapters(&twice).is_empty());
}

#[test]
fn links_are_judged_by_where_they_lead() {
    let judged = |text: &str| chapter_candidate(&SiteUrl::parse(text), &base());
    let c = judged("https://w6.zom-100.example/m/zom-chapter-3/#top").unwrap();
    assert_eq!(c.number.to_decimal(), "3");
    assert_eq!(c.url, "https://w6.zom-100.example/m/zom-chapter-3/");
    assert_eq!(c.family, "https://zom-100.example/m/zom-chapter-#");
    assert!(judged("https://other.example/m/zom-chapter-3/").is_none());
    assert!(judged("ftp://zom-100.example/m/zom-chapter-3/").is_none());
    assert!(judged("https://zom-100.example/about/").is_none());
    assert!(judged("not an address").is_none());
}

#[test]
fn page_without_a_host_has_no_chapters() {
    let base = SiteUrl::parse("file:///tmp/page.html").unwrap();
    let html = r#"<a href="/a/chapter-1">1</a><a href="/a/chapter-2">2</a>"#;
    assert!(extract_site_info(html, &base).chapters.is_empty());
}

#[test]
fn latest_is_the_greatest_and_nothing_follows_it() {
    let info = extract_site_info(HOMEPAGE, &base());
    let latest = info.latest_chapter().unwrap();
    for c in info.chapters.iter() {
        assert!(!latest.number.less_than(&c.number));
    }
    assert!(info.next_chapter_after(&latest.number).is_none());
    assert_eq!(value(&info.next_chapter_after(&num(0.0)).unwrap().number), 1.0);
    assert_eq!(value(&info.next_chapter_after(&num(10.75)).unwrap().number), 11.0);
}

#[test]
fn empty_list_has_no_latest() {
    let info = SiteInfo { title: String::new(), cover_url: None, chapters: Vec::new() };
    assert!(info.latest_chapter().is_none());
    assert!(info.next_chapter_after(&num(0.0)).is_none());
}
