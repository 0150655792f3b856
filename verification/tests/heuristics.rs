use scanlation::address::SiteUrl;
use scanlation::heuristics::{
    bare_number_ranges, chapter_info_from_text, chapter_info_from_url, chapter_number_from_captures,
    chapter_number_from_match, clean_title, family_for, family_from_match, hosts_related,
    is_boundary, percent_decode, title_from_head, ChapterInfo,
};
use scanlation::number::ChapterNumber;
use scanlation::pattern::{Captured, Group};

fn info(text: &str) -> Option<ChapterInfo> {
    chapter_info_from_text(text, text)
}

/// The number as a float.
fn value(n: &ChapterNumber) -> f64 {
    n.to_decimal().parse().unwrap()
}

#[test]
fn explicit_chapter_keyword() {
    let i = info("/manga/one-piece-chapter-1050/").unwrap();
    assert_eq!(value(&i.number), 1050.0);
    assert!(i.explicit);
    assert_eq!(i.family, "/manga/one-piece-chapter-#");
}

#[test]
fn decimal_sub_chapter() {
    let i = info("/series/foo-chapter-10.5/").unwrap();
    assert_eq!(value(&i.number), 10.5);
    assert!(i.explicit);
}

#[test]
fn letter_sub_chapter_maps_to_decimal() {
    let i = info("/series/foo-chapter-10b/").unwrap();
    assert!((value(&i.number) - 10.02).abs() < 1e-9);
}

#[test]
fn short_ch_prefix() {
    let i = info("/read/ch-42/").unwrap();
    assert_eq!(value(&i.number), 42.0);
    assert!(i.explicit);
}

#[test]
fn bare_trailing_number_is_not_explicit() {
    let i = info("/zom-100/112/").unwrap();
    assert_eq!(value(&i.number), 112.0);
    assert!(!i.explicit);
    assert_eq!(i.family, "/zom-100/#");
}

#[test]
fn wordpress_pagination_is_rejected() {
    assert!(info("/page/2/").is_none());
    assert!(info("/manga/page/3").is_none());
}

#[test]
fn plain_text_without_numbers_is_rejected() {
    assert!(info("/about-us/").is_none());
    assert!(info("/").is_none());
}

#[test]
fn same_series_shares_family_across_chapters() {
    let a = info("/manga/foo-chapter-3/").unwrap();
    let b = info("/manga/foo-chapter-4/").unwrap();
    assert_eq!(a.family, b.family);
    let c = info("/manga/bar-chapter-4/").unwrap();
    assert_ne!(a.family, c.family);
}

#[test]
fn from_url_uses_decoded_path_and_origin_family() {
    let url = SiteUrl::parse("https://example.test/manga/foo-chapter-12/").unwrap();
    let i = chapter_info_from_url(&url).unwrap();
    assert_eq!(value(&i.number), 12.0);
    assert_eq!(i.family, "https://example.test/manga/foo-chapter-#");
}

#[test]
fn from_url_ignores_query_only_numbers() {
    let url = SiteUrl::parse("https://example.test/reader/?id=99").unwrap();
    assert!(chapter_info_from_url(&url).is_none());
}

#[test]
fn clean_title_strips_site_suffixes() {
    assert_eq!(
        clean_title("Zom 100: Bucket List of the Dead | Read Online Free"),
        "Zom 100: Bucket List of the Dead"
    );
    assert_eq!(
        clean_title("Rent a Girlfriend Manga - Read Chapters Online"),
        "Rent a Girlfriend Manga"
    );
}

#[test]
fn clean_title_strips_chapter_noise() {
    assert_eq!(
        clean_title("Smoking Behind the Supermarket With You Chapter 45"),
        "Smoking Behind the Supermarket With You"
    );
}

#[test]
fn clean_title_keeps_short_titles_whole() {
    assert_eq!(clean_title("  Berserk  "), "Berserk");
}

// ---------- the chapter number ----------

fn group(text: &str, rest: &str) -> Option<Group> {
    Some(Group { text: text.to_string(), rest: rest.to_string() })
}

#[test]
fn groups_denote_numbers() {
    let number = |groups: Vec<Option<Group>>| {
        chapter_number_from_captures(&groups).map(|n| n.to_decimal())
    };
    assert_eq!(number(vec![group("007", ""), None, None]), Some("7".to_string()));
    assert_eq!(number(vec![group("10", ""), group("50", ""), None]), Some("10.5".to_string()));
    assert_eq!(number(vec![group("10", ""), None, group("a", "")]), Some("10.01".to_string()));
    assert_eq!(number(vec![group("10", ""), None, group("j", "")]), Some("10.1".to_string()));
    assert_eq!(number(vec![group("10", ""), None, group("z", "")]), Some("10.26".to_string()));
    assert_eq!(number(vec![group("99", ""), None, group("\u{17f}", "")]), Some("100.01".to_string()));
    assert_eq!(number(vec![None, None, None]), None);
    assert_eq!(number(vec![group("", ""), None, None]), None);
    assert_eq!(number(vec![group("x", ""), None, None]), None);
    assert_eq!(number(vec![group("1", ""), group("x", ""), None]), None);
    assert_eq!(number(vec![group("1", ""), None, group("-", "")]), None);
}

#[test]
fn letter_chapters_lie_between_their_neighbours() {
    let ten = info("foo chapter 10").unwrap().number;
    let ten_z = info("foo chapter 10z").unwrap().number;
    let eleven = info("foo chapter 11").unwrap().number;
    assert!(ten.less_than(&ten_z));
    assert!(ten_z.less_than(&eleven));
    assert_eq!(ten_z.to_decimal(), "10.26");
}

#[test]
fn explicit_chapter_counts_on_a_paginated_list() {
    let i = info("/manga/foo-chapter-7/page/2/").unwrap();
    assert_eq!(i.number.to_decimal(), "7");
    assert!(i.explicit);
}

#[test]
fn match_decides_the_number() {
    let explicit = Some(Captured {
        before: "a-".to_string(),
        matched: "ch-3".to_string(),
        after: "-b".to_string(),
        groups: vec![group("3", "-b"), None, None],
    });
    let (n, is_explicit) = chapter_number_from_match("a-ch-3-b", &explicit, true).unwrap();
    assert_eq!(n.to_decimal(), "3");
    assert!(is_explicit);
    let (n, is_explicit) = chapter_number_from_match("/zom-100/112/", &None, false).unwrap();
    assert_eq!(n.to_decimal(), "112");
    assert!(!is_explicit);
    assert!(chapter_number_from_match("/zom-100/112/", &None, true).is_none());
    assert!(chapter_number_from_match("/zom/", &None, false).is_none());
}

#[test]
fn numbers_keep_every_digit() {
    let i = info("chapter 123456789012345678901234567890.5").unwrap();
    assert_eq!(i.number.to_decimal(), "123456789012345678901234567890.5");
}

// ---------- bare numbers ----------

fn ranges(text: &str) -> Vec<(usize, usize)> {
    bare_number_ranges(&text.chars().collect())
}

#[test]
fn bare_numbers_stand_between_delimiters() {
    assert_eq!(ranges("/zom-100/112/"), vec![(5, 8), (9, 12)]);
    assert_eq!(ranges("12345 123456 a1 1b 7"), vec![(0, 5), (19, 20)]);
    assert_eq!(ranges("\u{e9}_3"), vec![(2, 3)]);
    assert_eq!(ranges(""), Vec::new());
}

#[test]
fn boundaries() {
    for c in ['-', '_', '/', ' ', '\t', '\n'] {
        assert!(is_boundary(Some(c)));
    }
    assert!(is_boundary(None));
    assert!(!is_boundary(Some('.')));
    assert!(!is_boundary(Some('1')));
}

// ---------- families ----------

#[test]
fn families_replace_the_chapter() {
    assert_eq!(family_for("/Zom-100/112/"), "/zom-100/#");
    assert_eq!(family_for("/read/ep_42"), "/read/chapter-#");
    assert_eq!(family_for("/about//"), "/about");
    assert_eq!(family_for("\u{130}/7/"), "i\u{307}/#");
}

#[test]
fn family_keeps_the_delimiter_after_a_letter() {
    assert_eq!(family_for("/foo-chapter-10b-extra/"), "/foo-chapter-#-extra");
    assert_eq!(family_for("/foo-chapter-10-extra/"), "/foo-chapter-#-extra");
}

#[test]
fn family_of_a_given_match() {
    let explicit = Some(Captured {
        before: "a/".to_string(),
        matched: "ch10b-".to_string(),
        after: "c/".to_string(),
        groups: vec![group("10", "b-c/"), None, group("b", "-c/")],
    });
    assert_eq!(family_from_match("a/ch10b-c/", &explicit), "a/chapter-#-c");
    assert_eq!(family_from_match("a/7/b", &None), "a/#/b");
}

#[test]
fn bare_numbers_share_their_family() {
    let a = info("/zom-100/7/").unwrap();
    let b = info("/zom-100/112/").unwrap();
    assert_eq!(a.family, b.family);
    assert_eq!(a.number.to_decimal(), "7");
    assert_eq!(b.number.to_decimal(), "112");
}

#[test]
fn series_have_families_of_their_own() {
    let path = |series: &str, n: u32| format!("/manga/{}-chapter-{}/", series, n);
    let series = ["foo", "bar", "ch", "chapter", "ep", "epch", "x"];
    for s in series {
        for n in [0, 7, 12, 4294967295] {
            let i = info(&path(s, n)).unwrap();
            assert_eq!(i.number.to_decimal(), format!("{}", n));
            assert_eq!(i.family, format!("/manga/{}-chapter-#", s));
            for u in series {
                let j = info(&path(u, 3)).unwrap();
                assert_eq!(i.family == j.family, s == u);
            }
        }
    }
}

#[test]
fn plain_chapters_are_found() {
    let befores = ["", "/", "ch ", "ep-chapter", "Chapter-", "\u{e9}/episode_", "chapter-/ch-", "x.y~z\n"];
    let numbers = ["0", "7", "0012", "99999999999999999999999999"];
    let afters = ["", "/", "//", "/chapter-3/", "/b", "/page/2/", "/1a"];
    for before in befores {
        for number in numbers {
            for after in afters {
                let i = info(&format!("{}chapter-{}{}", before, number, after)).unwrap();
                assert!(i.number.equals(&ChapterNumber::parse(number).unwrap()));
                assert!(i.explicit);
                let replaced = format!("{}chapter-#{}", before.to_lowercase(), after);
                assert_eq!(i.family, replaced.trim_end_matches('/'));
            }
        }
    }
}

#[test]
fn family_source_is_the_text_where_it_is_empty() {
    let i = chapter_info_from_text("Foo/3", "").unwrap();
    assert_eq!(i.family, "foo/#");
    let i = chapter_info_from_text("Foo/3", "bar-9").unwrap();
    assert_eq!(i.family, "bar-#");
}

// ---------- addresses ----------

#[test]
fn escapes_are_decoded() {
    assert_eq!(percent_decode("/foo%20bar/%63h-3"), "/foo bar/ch-3");
    assert_eq!(percent_decode("/plain/path"), "/plain/path");
    assert_eq!(percent_decode("%"), "%");
    assert_eq!(percent_decode("%4"), "%4");
    assert_eq!(percent_decode("%zz%41"), "%zzA");
    assert_eq!(percent_decode("%+f"), "\u{f}");
    assert_eq!(percent_decode("%C3%A9"), "\u{e9}");
    // No valid UTF-8: the input is kept.
    assert_eq!(percent_decode("%FF%41"), "%FF%41");
}

#[test]
fn text_escaped_byte_by_byte_decodes_to_itself() {
    for text in ["", "plain", "50% off", "caf\u{e9}/\u{4e2d}\u{1f600}", "%41%"] {
        let upper: String = text.bytes().map(|b| format!("%{:02X}", b)).collect();
        let lower: String = text.bytes().map(|b| format!("%{:02x}", b)).collect();
        assert_eq!(percent_decode(&upper), text);
        assert_eq!(percent_decode(&lower), text);
    }
}

#[test]
fn from_url_decodes_the_path() {
    let url = SiteUrl::parse("https://example.test/manga/foo%20chapter%2012").unwrap();
    let i = chapter_info_from_url(&url).unwrap();
    assert_eq!(i.number.to_decimal(), "12");
    assert_eq!(i.family, "https://example.test/manga/foo chapter-#");
    assert!(i.explicit);
}

#[test]
fn from_url_without_a_host() {
    let url = SiteUrl::parse("file:///manga/7").unwrap();
    assert_eq!(url.host_str(), None);
    let i = chapter_info_from_url(&url).unwrap();
    assert_eq!(i.family, "file:///manga/#");
}

#[test]
fn mirrors_are_related() {
    assert!(hosts_related("a.example", "a.example"));
    assert!(hosts_related("w6.a.example", "a.example"));
    assert!(hosts_related("a.example", "w6.a.example"));
    assert!(!hosts_related("xa.example", "a.example"));
    assert!(!hosts_related("w5.a.example", "w6.a.example"));
    assert!(!hosts_related("a.example", "b.example"));
}

#[test]
fn addresses_have_their_parts() {
    let url = SiteUrl::parse("HTTPS://Example.Test:8080/a/../b?q=1#frag").unwrap();
    assert_eq!(url.as_str(), "https://example.test:8080/b?q=1#frag");
    assert_eq!(url.scheme(), "https");
    assert_eq!(url.host_str(), Some("example.test"));
    assert_eq!(url.path(), "/b");
    assert_eq!(url.without_fragment(), "https://example.test:8080/b?q=1");
    assert_eq!(url.join("../c").unwrap().as_str(), "https://example.test:8080/c");
    assert!(url.join("http://[").is_none());
    assert!(SiteUrl::parse("no address").is_none());
}

#[test]
fn paths_of_addresses_are_ascii() {
    let url = SiteUrl::parse("https://example.test/caf\u{e9}/7").unwrap();
    assert_eq!(url.path(), "/caf%C3%A9/7");
    assert!(url.path().is_ascii());
    let opaque = SiteUrl::parse("mailto:caf\u{e9}@example.test").unwrap();
    assert!(opaque.path().is_ascii());
}

// ---------- titles ----------

#[test]
fn titles_lose_what_the_site_adds() {
    assert_eq!(clean_title("Berserk \u{2014} Dark Horse"), "Berserk");
    assert_eq!(clean_title("Berserk\u{2013}x"), "Berserk");
    assert_eq!(clean_title("Foo:  Vol. 3 | x"), "Foo");
    assert_eq!(clean_title("Foo -, Chapter 10.5"), "Foo");
}

#[test]
fn titles_without_a_usable_head_are_kept_whole() {
    assert_eq!(clean_title("A - Read Online"), "A - Read Online");
    assert_eq!(clean_title("| Berserk"), "| Berserk");
    assert_eq!(clean_title("Chapter 45"), "Chapter 45");
    assert_eq!(clean_title(" \t\n"), "");
    assert_eq!(clean_title("ab"), "ab");
}

#[test]
fn usable_heads_have_three_bytes() {
    // Two characters, four bytes.
    assert_eq!(clean_title("\u{e9}\u{e9} | x"), "\u{e9}\u{e9}");
    let collapsed: Vec<char> = "whole title".chars().collect();
    assert_eq!(title_from_head(&collapsed, " abc:, "), "abc");
    assert_eq!(title_from_head(&collapsed, " ab:, "), "whole title");
}
