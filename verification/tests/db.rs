use scanlation::db::{Library, Manga};
use scanlation::error::Error;
use scanlation::number::ChapterNumber;

fn lib() -> Library {
    Library::open_in_memory().unwrap()
}

/// The chapter number with the value of the float.
fn num(x: f64) -> ChapterNumber {
    ChapterNumber::parse(&format!("{}", x)).unwrap()
}

/// The number as a float.
fn value(n: &Option<ChapterNumber>) -> Option<f64> {
    n.as_ref().map(|n| n.to_decimal().parse().unwrap())
}

#[test]
fn add_list_remove_roundtrip() {
    let mut lib = lib();
    let m = lib
        .add("https://zom.example/", "Zom 100", Some("/tmp/c.jpg"), 1)
        .unwrap();
    assert_eq!(m.title, "Zom 100");
    assert_eq!(lib.list().unwrap().len(), 1);
    lib.remove(m.id).unwrap();
    assert!(lib.list().unwrap().is_empty());
}

#[test]
fn duplicate_url_is_a_friendly_error() {
    let mut lib = lib();
    lib.add("https://zom.example/", "Zom 100", None, 1).unwrap();
    let err = lib
        .add("https://zom.example/", "Zom 100", None, 2)
        .unwrap_err();
    assert!(err.to_string().contains("already in the library"));
}

#[test]
fn record_read_moves_progress_forward_only() {
    let mut lib = lib();
    let m = lib.add("https://zom.example/", "Zom 100", None, 1).unwrap();
    lib.record_read(m.id, "https://zom.example/ch-7/", Some(&num(7.0)), 2)
        .unwrap();
    lib.record_read(m.id, "https://zom.example/ch-3/", Some(&num(3.0)), 3)
        .unwrap();
    let m = lib.get(m.id).unwrap().unwrap();
    assert_eq!(value(&m.last_read_chapter), Some(7.0));
    // last_read_url always tracks the most recent navigation.
    assert_eq!(
        m.last_read_url.as_deref(),
        Some("https://zom.example/ch-3/")
    );
}

#[test]
fn update_latest_baseline_then_news() {
    let mut lib = lib();
    let m = lib.add("https://zom.example/", "Zom 100", None, 1).unwrap();
    lib.baseline_latest(m.id, &num(10.0), "https://zom.example/ch-10/", 2)
        .unwrap();
    let m1 = lib.get(m.id).unwrap().unwrap();
    assert!(!m1.has_new);
    assert_eq!(value(&m1.latest_chapter), Some(10.0));

    // Later check finds chapter 11 → news.
    let news = lib
        .update_latest(m.id, &num(11.0), "https://zom.example/ch-11/", 3)
        .unwrap();
    assert!(news);
    assert!(lib.get(m.id).unwrap().unwrap().has_new);

    // Same chapter again → no news.
    let news = lib
        .update_latest(m.id, &num(11.0), "https://zom.example/ch-11/", 4)
        .unwrap();
    assert!(!news);
}

#[test]
fn update_latest_already_read_is_not_news() {
    let mut lib = lib();
    let m = lib.add("https://zom.example/", "Zom 100", None, 1).unwrap();
    lib.baseline_latest(m.id, &num(10.0), "https://zom.example/ch-10/", 2)
        .unwrap();
    lib.record_read(m.id, "https://zom.example/ch-11/", Some(&num(11.0)), 3)
        .unwrap();
    // Checker later catches up to what the user already read.
    let news = lib
        .update_latest(m.id, &num(11.0), "https://zom.example/ch-11/", 4)
        .unwrap();
    assert!(!news);
    assert!(!lib.get(m.id).unwrap().unwrap().has_new);
}

#[test]
fn reading_latest_clears_new_badge() {
    let mut lib = lib();
    let m = lib.add("https://zom.example/", "Zom 100", None, 1).unwrap();
    lib.baseline_latest(m.id, &num(10.0), "https://zom.example/ch-10/", 2)
        .unwrap();
    lib.update_latest(m.id, &num(11.0), "https://zom.example/ch-11/", 3)
        .unwrap();
    assert!(lib.get(m.id).unwrap().unwrap().has_new);

    lib.record_read(m.id, "https://zom.example/ch-11/", Some(&num(11.0)), 4)
        .unwrap();
    let m = lib.get(m.id).unwrap().unwrap();
    assert!(!m.has_new);
    assert_eq!(value(&m.last_read_chapter), Some(11.0));
}

#[test]
fn reading_past_known_latest_advances_latest() {
    let mut lib = lib();
    let m = lib.add("https://zom.example/", "Zom 100", None, 1).unwrap();
    lib.baseline_latest(m.id, &num(10.0), "https://zom.example/ch-10/", 2)
        .unwrap();
    lib.record_read(m.id, "https://zom.example/ch-12/", Some(&num(12.0)), 3)
        .unwrap();
    let m = lib.get(m.id).unwrap().unwrap();
    assert_eq!(value(&m.latest_chapter), Some(12.0));
    assert!(!m.has_new);
}

#[test]
fn record_read_without_chapter_only_updates_url() {
    let mut lib = lib();
    let m = lib.add("https://zom.example/", "Zom 100", None, 1).unwrap();
    lib.record_read(m.id, "https://zom.example/about/", None, 2)
        .unwrap();
    let m = lib.get(m.id).unwrap().unwrap();
    assert_eq!(
        m.last_read_url.as_deref(),
        Some("https://zom.example/about/")
    );
    assert_eq!(value(&m.last_read_chapter), None);
}

#[test]
fn list_orders_new_first() {
    let mut lib = lib();
    let a = lib.add("https://a.example/", "A", None, 1).unwrap();
    let b = lib.add("https://b.example/", "B", None, 2).unwrap();
    lib.baseline_latest(a.id, &num(1.0), "https://a.example/ch-1/", 3)
        .unwrap();
    lib.update_latest(a.id, &num(2.0), "https://a.example/ch-2/", 4)
        .unwrap();
    let list = lib.list().unwrap();
    assert_eq!(list[0].id, a.id);
    assert_eq!(list[1].id, b.id);
}

// ---------- rows ----------

#[test]
fn added_manga_is_found_as_it_was_given() {
    let mut lib = lib();
    let m = lib.add("u", "t", Some("/c.jpg"), 5).unwrap();
    let found = lib.get(m.id).unwrap().unwrap();
    assert_eq!(found, m);
    assert_eq!(found.id, 1);
    assert_eq!(found.url, "u");
    assert_eq!(found.cover_path.as_deref(), Some("/c.jpg"));
    assert_eq!(found.created_at, 5);
    assert_eq!(found.last_checked_at, None);
    assert!(!found.has_new);
    assert!(lib.get(2).unwrap().is_none());
}

#[test]
fn duplicate_url_changes_nothing() {
    let mut lib = lib();
    lib.add("u", "t", None, 5).unwrap();
    let err = lib.add("u", "other", None, 6).unwrap_err();
    assert_eq!(err, Error::Other("u is already in the library".to_string()));
    let list = lib.list().unwrap();
    assert_eq!(list.len(), 1);
    assert_eq!(list[0].title, "t");
}

#[test]
fn ids_are_not_given_out_again() {
    let mut lib = lib();
    let a = lib.add("a", "A", None, 1).unwrap();
    lib.remove(a.id).unwrap();
    lib.remove(a.id).unwrap();
    let b = lib.add("a", "A", None, 2).unwrap();
    assert_eq!(b.id, 2);
}

#[test]
fn changes_show_in_their_manga_alone() {
    let mut lib = lib();
    let a = lib.add("a", "A", None, 1).unwrap();
    let b = lib.add("b", "B", None, 2).unwrap();
    lib.set_title(a.id, "New").unwrap();
    lib.set_cover(a.id, "/x.png").unwrap();
    lib.set_title(99, "nobody").unwrap();
    let found = lib.get(a.id).unwrap().unwrap();
    assert_eq!(found.title, "New");
    assert_eq!(found.cover_path.as_deref(), Some("/x.png"));
    assert_eq!(lib.get(b.id).unwrap().unwrap(), b);
    assert_eq!(lib.list().unwrap().len(), 2);
}

#[test]
fn unknown_ids_are_no_errors() {
    let mut lib = lib();
    lib.record_read(7, "u", Some(&num(1.0)), 1).unwrap();
    assert!(!lib.update_latest(7, &num(1.0), "u", 1).unwrap());
    lib.baseline_latest(7, &num(1.0), "u", 1).unwrap();
    lib.set_cover(7, "c").unwrap();
    lib.remove(7).unwrap();
    assert!(lib.list().unwrap().is_empty());
}

#[test]
fn list_is_ordered_by_activity_then_id() {
    let mut lib = lib();
    let a = lib.add("a", "A", None, 10).unwrap();
    let b = lib.add("b", "B", None, 20).unwrap();
    let c = lib.add("c", "C", None, 20).unwrap();
    let d = lib.add("d", "D", None, 5).unwrap();
    lib.record_read(d.id, "d/1", None, 30).unwrap();
    let ids: Vec<i64> = lib.list().unwrap().iter().map(|m| m.id).collect();
    assert_eq!(ids, vec![d.id, b.id, c.id, a.id]);
}

// ---------- reading and checking ----------

#[test]
fn first_check_is_a_baseline() {
    let mut lib = lib();
    let m = lib.add("u", "t", None, 1).unwrap();
    assert!(!lib.update_latest(m.id, &num(5.0), "u/5", 2).unwrap());
    let found = lib.get(m.id).unwrap().unwrap();
    assert!(!found.has_new);
    assert_eq!(value(&found.latest_chapter), Some(5.0));
    assert_eq!(found.latest_chapter_url.as_deref(), Some("u/5"));
    assert_eq!(found.last_checked_at, Some(2));
}

#[test]
fn check_without_progress_only_stamps_the_time() {
    let mut lib = lib();
    let m = lib.add("u", "t", None, 1).unwrap();
    lib.baseline_latest(m.id, &num(5.0), "u/5", 2).unwrap();
    assert!(!lib.update_latest(m.id, &num(4.0), "u/4", 3).unwrap());
    let found = lib.get(m.id).unwrap().unwrap();
    assert_eq!(value(&found.latest_chapter), Some(5.0));
    assert_eq!(found.latest_chapter_url.as_deref(), Some("u/5"));
    assert_eq!(found.last_checked_at, Some(3));
}

#[test]
fn badge_stays_until_the_latest_is_read() {
    let mut lib = lib();
    let m = lib.add("u", "t", None, 1).unwrap();
    lib.baseline_latest(m.id, &num(10.0), "u/10", 2).unwrap();
    assert!(lib.update_latest(m.id, &num(12.0), "u/12", 3).unwrap());
    lib.record_read(m.id, "u/11", Some(&num(11.0)), 4).unwrap();
    assert!(lib.get(m.id).unwrap().unwrap().has_new);
    lib.record_read(m.id, "u/12", Some(&num(12.0)), 5).unwrap();
    let found = lib.get(m.id).unwrap().unwrap();
    assert!(!found.has_new);
    assert_eq!(found.last_read_at, Some(5));
    assert_eq!(found.latest_chapter_url.as_deref(), Some("u/12"));
}

// ---------- stored rows ----------

fn row(id: i64, url: &str) -> Manga {
    Manga {
        id,
        url: url.to_string(),
        title: "t".to_string(),
        cover_path: None,
        created_at: 1,
        last_read_url: None,
        last_read_chapter: Some(num(2.5)),
        last_read_at: None,
        latest_chapter: None,
        latest_chapter_url: None,
        last_checked_at: None,
        has_new: true,
    }
}

#[test]
fn stored_rows_make_a_library() {
    let mut lib = Library::from_rows(vec![row(2, "a"), row(5, "b")], 7).unwrap();
    assert_eq!(lib.get(5).unwrap().unwrap(), row(5, "b"));
    assert_eq!(lib.add("c", "C", None, 1).unwrap().id, 8);
}

#[test]
fn rows_that_fit_no_library_are_refused() {
    assert!(Library::from_rows(Vec::new(), 0).is_some());
    assert!(Library::from_rows(Vec::new(), -1).is_none());
    assert!(Library::from_rows(vec![row(0, "a")], 1).is_none());
    assert!(Library::from_rows(vec![row(3, "a")], 2).is_none());
    assert!(Library::from_rows(vec![row(2, "a"), row(1, "b")], 2).is_none());
    assert!(Library::from_rows(vec![row(1, "a"), row(2, "a")], 2).is_none());
}

#[test]
fn library_without_an_id_left_is_full() {
    let mut lib = Library::from_rows(vec![row(1, "a")], i64::MAX).unwrap();
    let err = lib.add("a", "A", None, 1).unwrap_err();
    assert_eq!(err.to_string(), "database error: database or disk is full");
    assert_eq!(lib.list().unwrap().len(), 1);
}

// ---------- errors ----------

#[test]
fn errors_have_messages() {
    let text = || "x".to_string();
    assert_eq!(Error::Db(text()).to_string(), "database error: x");
    assert_eq!(Error::Http(text()).to_string(), "http error: x");
    assert_eq!(Error::Url(text()).to_string(), "invalid url: x");
    assert_eq!(Error::Io(text()).to_string(), "io error: x");
    assert_eq!(Error::Other(text()).to_string(), "x");
}
