//! The library: the manga list plus per-manga read state.
//!
//! All timestamps are unix seconds.

use vstd::prelude::*;
use crate::error::Error;
use crate::number::{law_not_greater_less, law_order_transitive, ChapterNumber, Decimal};
use crate::text::{str_view, text_view};

verus! {

// ---------- the rows ----------

/// One manga of the library and what is known of its reading.
#[derive(Debug, PartialEq)]
pub struct Manga {
    pub id: i64,
    /// The site/homepage URL the user pasted.
    pub url: String,
    pub title: String,
    /// Local path of the downloaded cover image, if any.
    pub cover_path: Option<String>,
    pub created_at: i64,
    pub last_read_url: Option<String>,
    pub last_read_chapter: Option<ChapterNumber>,
    pub last_read_at: Option<i64>,
    pub latest_chapter: Option<ChapterNumber>,
    pub latest_chapter_url: Option<String>,
    pub last_checked_at: Option<i64>,
    /// True when a check discovered a chapter newer than what the user
    /// has read; cleared once the user reads it.
    pub has_new: bool,
}

/// The model of [`Manga`].
#[verifier::ext_equal]
pub struct MangaView {
    pub id: i64,
    pub url: Seq<char>,
    pub title: Seq<char>,
    pub cover_path: Option<Seq<char>>,
    pub created_at: i64,
    pub last_read_url: Option<Seq<char>>,
    pub last_read_chapter: Option<Decimal>,
    pub last_read_at: Option<i64>,
    pub latest_chapter: Option<Decimal>,
    pub latest_chapter_url: Option<Seq<char>>,
    pub last_checked_at: Option<i64>,
    pub has_new: bool,
}

/// The number, where there is one.
pub open spec fn number_view(n: Option<ChapterNumber>) -> Option<Decimal> {
    match n {
        Some(n) => Some(n@),
        None => None,
    }
}

impl View for Manga {
    type V = MangaView;

    open spec fn view(&self) -> MangaView {
        MangaView {
            id: self.id,
            url: self.url@,
            title: self.title@,
            cover_path: text_view(self.cover_path),
            created_at: self.created_at,
            last_read_url: text_view(self.last_read_url),
            last_read_chapter: number_view(self.last_read_chapter),
            last_read_at: self.last_read_at,
            latest_chapter: number_view(self.latest_chapter),
            latest_chapter_url: text_view(self.latest_chapter_url),
            last_checked_at: self.last_checked_at,
            has_new: self.has_new,
        }
    }
}

fn copy_text(s: &Option<String>) -> (r: Option<String>)
    ensures
        text_view(r) == text_view(*s),
{
    match s {
        Some(s) => Some(s.clone()),
        None => None,
    }
}

fn copy_number(n: &Option<ChapterNumber>) -> (r: Option<ChapterNumber>)
    ensures
        number_view(r) == number_view(*n),
{
    match n {
        Some(n) => Some(n.clone()),
        None => None,
    }
}

impl Clone for Manga {
    fn clone(&self) -> (r: Self)
        ensures
            r@ == self@,
    {
        Manga {
            id: self.id,
            url: self.url.clone(),
            title: self.title.clone(),
            cover_path: copy_text(&self.cover_path),
            created_at: self.created_at,
            last_read_url: copy_text(&self.last_read_url),
            last_read_chapter: copy_number(&self.last_read_chapter),
            last_read_at: self.last_read_at,
            latest_chapter: copy_number(&self.latest_chapter),
            latest_chapter_url: copy_text(&self.latest_chapter_url),
            last_checked_at: self.last_checked_at,
            has_new: self.has_new,
        }
    }
}

// ---------- what happens to a row ----------

/// A manga that was just added.
pub open spec fn new_row(
    id: i64,
    url: Seq<char>,
    title: Seq<char>,
    cover_path: Option<Seq<char>>,
    now: i64,
) -> MangaView {
    MangaView {
        id,
        url,
        title,
        cover_path,
        created_at: now,
        last_read_url: None,
        last_read_chapter: None,
        last_read_at: None,
        latest_chapter: None,
        latest_chapter_url: None,
        last_checked_at: None,
        has_new: false,
    }
}

/// Whether `number` is beyond the known one; any number is where none is
/// known.
pub open spec fn beyond(number: Decimal, known: Option<Decimal>) -> bool {
    match known {
        Some(k) => k.less(number),
        None => true,
    }
}

/// The greater of `number` and the known one.
pub open spec fn furthest(number: Decimal, known: Option<Decimal>) -> Decimal {
    match known {
        Some(k) => if k.less(number) {
            number
        } else {
            k
        },
        None => number,
    }
}

/// The manga after the reader navigated to `url`. Where a chapter was
/// parsed from it, progress and the latest chapter move forward, never
/// backward, and the badge goes once the latest chapter that was known is
/// reached.
pub open spec fn after_read(
    m: MangaView,
    url: Seq<char>,
    chapter: Option<Decimal>,
    now: i64,
) -> MangaView {
    match chapter {
        None => MangaView { last_read_url: Some(url), last_read_at: Some(now), ..m },
        Some(c) => MangaView {
            last_read_url: Some(url),
            last_read_at: Some(now),
            last_read_chapter: Some(furthest(c, m.last_read_chapter)),
            latest_chapter: Some(furthest(c, m.latest_chapter)),
            latest_chapter_url: if beyond(c, m.latest_chapter) {
                Some(url)
            } else {
                m.latest_chapter_url
            },
            has_new: m.has_new && m.latest_chapter is Some && furthest(c, m.last_read_chapter).less(
                m.latest_chapter->0,
            ),
            ..m
        },
    }
}

/// Whether a check that found `number` is worth a notification: the
/// chapter is beyond the latest one known, one was known, and it is
/// beyond what the user has read.
pub open spec fn is_news(m: MangaView, number: Decimal) -> bool {
    m.latest_chapter is Some && beyond(number, m.latest_chapter) && beyond(
        number,
        m.last_read_chapter,
    )
}

/// The manga after a check that found `number` at `url`.
pub open spec fn after_check(
    m: MangaView,
    number: Decimal,
    url: Seq<char>,
    now: i64,
) -> MangaView {
    MangaView {
        last_checked_at: Some(now),
        latest_chapter: Some(furthest(number, m.latest_chapter)),
        latest_chapter_url: if beyond(number, m.latest_chapter) {
            Some(url)
        } else {
            m.latest_chapter_url
        },
        has_new: m.has_new || is_news(m, number),
        ..m
    }
}

/// The manga with its latest chapter baselined.
pub open spec fn after_baseline(
    m: MangaView,
    number: Decimal,
    url: Seq<char>,
    now: i64,
) -> MangaView {
    MangaView {
        latest_chapter: Some(number),
        latest_chapter_url: Some(url),
        last_checked_at: Some(now),
        ..m
    }
}

/// Decides whether `number` is beyond the known one.
fn is_beyond(number: &ChapterNumber, known: &Option<ChapterNumber>) -> (r: bool)
    ensures
        r == beyond(number@, number_view(*known)),
{
    match known {
        Some(k) => k.less_than(number),
        None => true,
    }
}

impl Manga {
    /// Records that the reader navigated to `url` at `now`, see
    /// [`Library::record_read`].
    fn record_read(&mut self, url: &str, chapter: Option<&ChapterNumber>, now: i64)
        ensures
            final(self)@ == after_read(old(self)@, url@, chapter_view(chapter), now),
    {
        self.last_read_url = Some(url.to_owned());
        self.last_read_at = Some(now);
        let c = match chapter {
            Some(c) => c,
            None => {
                return ;
            },
        };
        if is_beyond(c, &self.last_read_chapter) {
            self.last_read_chapter = Some(c.clone());
        }
        let reaches_latest: bool = match (&self.last_read_chapter, &self.latest_chapter) {
            (Some(read), Some(latest)) => !read.less_than(latest),
            _ => true,
        };
        if is_beyond(c, &self.latest_chapter) {
            self.latest_chapter = Some(c.clone());
            self.latest_chapter_url = Some(url.to_owned());
        }
        if reaches_latest {
            self.has_new = false;
        }
    }

    /// Stores the result of a check at `now`, see
    /// [`Library::update_latest`].
    fn update_latest(&mut self, number: &ChapterNumber, url: &str, now: i64) -> (r: bool)
        ensures
            final(self)@ == after_check(old(self)@, number@, url@, now),
            r == is_news(old(self)@, number@),
    {
        self.last_checked_at = Some(now);
        if !is_beyond(number, &self.latest_chapter) {
            return false;
        }
        let known: bool = self.latest_chapter.is_some();
        self.latest_chapter = Some(number.clone());
        self.latest_chapter_url = Some(url.to_owned());
        let unread: bool = is_beyond(number, &self.last_read_chapter);
        // First successful check right after adding a manga just
        // baselines the latest chapter — no badge, no notification.
        if known && unread {
            self.has_new = true;
        }
        known && unread
    }
}

/// The chapter, where there is one.
pub open spec fn chapter_view(n: Option<&ChapterNumber>) -> Option<Decimal> {
    match n {
        Some(n) => Some(n@),
        None => None,
    }
}

// ---------- the library ----------

/// The manga list.
pub struct Library {
    rows: Vec<Manga>,
    last_id: i64,
}

/// The model of [`Library`]: the rows in the order of their ids, and the
/// last id that was given out.
#[verifier::ext_equal]
pub struct LibraryView {
    pub rows: Seq<MangaView>,
    pub last_id: i64,
}

/// The models of the rows.
pub open spec fn row_views(rows: Seq<Manga>) -> Seq<MangaView> {
    Seq::new(rows.len(), |i: int| rows[i]@)
}

impl View for Library {
    type V = LibraryView;

    closed spec fn view(&self) -> LibraryView {
        LibraryView { rows: row_views(self.rows@), last_id: self.last_id }
    }
}

/// The manga with its cover replaced.
pub open spec fn with_cover(m: MangaView, cover_path: Seq<char>) -> MangaView {
    MangaView { cover_path: Some(cover_path), ..m }
}

/// The manga with its title replaced.
pub open spec fn with_title(m: MangaView, title: Seq<char>) -> MangaView {
    MangaView { title, ..m }
}

impl LibraryView {
    /// Ids are given out in order, and no URL occurs twice.
    pub open spec fn well_formed(self) -> bool {
        &&& self.last_id >= 0
        &&& forall|i: int|
            0 <= i < self.rows.len() ==> 1 <= (#[trigger] self.rows[i]).id <= self.last_id
        &&& forall|i: int, j: int|
            0 <= i < j < self.rows.len() ==> (#[trigger] self.rows[i]).id < (
            #[trigger] self.rows[j]).id
        &&& forall|i: int, j: int|
            0 <= i < j < self.rows.len() ==> (#[trigger] self.rows[i]).url != (
            #[trigger] self.rows[j]).url
    }

    /// Whether the `i`-th row has the id.
    pub open spec fn row_at(self, id: i64, i: int) -> bool {
        0 <= i < self.rows.len() && self.rows[i].id == id
    }

    /// The row with the id, where there is one.
    pub open spec fn row(self, id: i64) -> Option<MangaView> {
        if exists|i: int| self.row_at(id, i) {
            Some(self.rows[choose|i: int| self.row_at(id, i)])
        } else {
            None
        }
    }

    /// Whether some row has the URL.
    pub open spec fn has_url(self, url: Seq<char>) -> bool {
        exists|i: int| 0 <= i < self.rows.len() && (#[trigger] self.rows[i]).url == url
    }

    /// The library with the row of the id changed by `f`.
    pub open spec fn changed(self, id: i64, f: spec_fn(MangaView) -> MangaView) -> LibraryView {
        LibraryView {
            rows: self.rows.map_values(
                |m: MangaView|
                    if m.id == id {
                        f(m)
                    } else {
                        m
                    },
            ),
            ..self
        }
    }

    /// The library without the row of the id.
    pub open spec fn without(self, id: i64) -> LibraryView {
        LibraryView { rows: self.rows.filter(other_than(id)), ..self }
    }

    /// The library with the row at the end.
    pub open spec fn with_new(self, m: MangaView) -> LibraryView {
        LibraryView { rows: self.rows.push(m), last_id: m.id }
    }
}

/// Any manga but the one with the id.
pub open spec fn other_than(id: i64) -> spec_fn(MangaView) -> bool {
    |m: MangaView| m.id != id
}

/// Changing the row of an id changes the one row that has it.
proof fn lemma_changed(v: LibraryView, id: i64, f: spec_fn(MangaView) -> MangaView)
    requires
        v.well_formed(),
    ensures
        forall|i: int| #[trigger]
            v.row_at(id, i) ==> v.changed(id, f).rows == v.rows.update(i, f(v.rows[i])) && v.row(id)
                == Some(v.rows[i]),
        (forall|i: int| !v.row_at(id, i)) ==> v.changed(id, f) == v && v.row(id) is None,
{
    assert forall|i: int| #[trigger] v.row_at(id, i) implies v.changed(id, f).rows
        == v.rows.update(i, f(v.rows[i])) && v.row(id) == Some(v.rows[i]) by {
        assert(forall|j: int| 0 <= j < v.rows.len() && j != i ==> v.rows[j].id != id);
        assert(v.changed(id, f).rows =~= v.rows.update(i, f(v.rows[i])));
        let c = choose|j: int| v.row_at(id, j);
        assert(v.row_at(id, c));
    }
    if forall|i: int| !v.row_at(id, i) {
        assert forall|j: int| 0 <= j < v.rows.len() implies (#[trigger] v.rows[j]).id != id by {
            assert(!v.row_at(id, j));
        }
        assert(v.changed(id, f).rows =~= v.rows);
    }
}

/// Filtering out an id drops the one row that has it.
proof fn lemma_without(rows: Seq<MangaView>, id: i64, i: int)
    requires
        forall|j: int| 0 <= j < rows.len() && j != i ==> (#[trigger] rows[j]).id != id,
        0 <= i < rows.len() ==> rows[i].id == id,
    ensures
        rows.filter(other_than(id)) == (if 0 <= i < rows.len() {
            rows.remove(i)
        } else {
            rows
        }),
    decreases rows.len(),
{
    reveal(Seq::filter);
    if rows.len() > 0 {
        let rest = rows.drop_last();
        assert forall|j: int| 0 <= j < rest.len() && j != i implies (#[trigger] rest[j]).id
            != id by {
            assert(rest[j] == rows[j]);
        }
        lemma_without(rest, id, i);
        assert(rows.last() == rows[rows.len() - 1]);
        if 0 <= i < rest.len() {
            assert(rest.remove(i).push(rows.last()) =~= rows.remove(i));
        } else if i == rest.len() {
            assert(rest =~= rows.remove(i));
        } else {
            assert(rest.push(rows.last()) =~= rows);
        }
    } else {
        assert(rows.filter(other_than(id)) =~= rows);
    }
}

/// When the manga was last touched.
pub open spec fn activity(m: MangaView) -> i64 {
    match m.last_read_at {
        Some(t) => t,
        None => m.created_at,
    }
}

/// The order of the list: manga with news first, then the ones touched
/// last; of two touched at the same second the one added first.
pub open spec fn listed_before(a: MangaView, b: MangaView) -> bool {
    if a.has_new != b.has_new {
        a.has_new
    } else if activity(a) != activity(b) {
        activity(a) > activity(b)
    } else {
        a.id < b.id
    }
}

/// Decides the order of the list.
fn comes_before(a: &Manga, b: &Manga) -> (r: bool)
    ensures
        r == listed_before(a@, b@),
{
    let ta: i64 = match a.last_read_at {
        Some(t) => t,
        None => a.created_at,
    };
    let tb: i64 = match b.last_read_at {
        Some(t) => t,
        None => b.created_at,
    };
    if a.has_new != b.has_new {
        a.has_new
    } else if ta != tb {
        ta > tb
    } else {
        a.id < b.id
    }
}

impl Library {
    #[verifier::type_invariant]
    closed spec fn inv(self) -> bool {
        self@.well_formed()
    }

    /// An empty library.
    pub fn open_in_memory() -> (r: Result<Library, Error>)
        ensures
            r is Ok,
            r->Ok_0@ == (LibraryView { rows: Seq::empty(), last_id: 0 }),
            r->Ok_0@.well_formed(),
    {
        let lib = Library { rows: Vec::new(), last_id: 0 };
        assert(lib@.rows =~= Seq::<MangaView>::empty());
        Ok(lib)
    }

    /// The position of the row with the id.
    fn index_of(&self, id: i64) -> (r: Option<usize>)
        ensures
            match r {
                Some(i) => self@.row_at(id, i as int),
                None => forall|i: int| !self@.row_at(id, i),
            },
    {
        let mut i: usize = 0;
        while i < self.rows.len()
            invariant
                i <= self.rows@.len(),
                forall|j: int| 0 <= j < i ==> self@.rows[j].id != id,
            decreases self.rows@.len() - i,
        {
            if self.rows[i].id == id {
                assert(self@.row_at(id, i as int));
                return Some(i);
            }
            i = i + 1;
        }
        None
    }

    /// Whether some row has the URL.
    fn contains_url(&self, url: &str) -> (r: bool)
        ensures
            r == self@.has_url(url@),
    {
        let mut i: usize = 0;
        while i < self.rows.len()
            invariant
                i <= self.rows@.len(),
                forall|j: int| 0 <= j < i ==> (#[trigger] self@.rows[j]).url != url@,
            decreases self.rows@.len() - i,
        {
            if self.rows[i].url.as_str().eq(url) {
                assert(self@.rows[i as int].url == url@);
                return true;
            }
            i = i + 1;
        }
        false
    }

    /// Puts `m` in the place of the `i`-th row.
    fn put(&mut self, i: usize, m: Manga)
        requires
            i < old(self)@.rows.len(),
            m.id == old(self)@.rows[i as int].id,
            m.url@ == old(self)@.rows[i as int].url,
        ensures
            final(self)@ == (LibraryView {
                rows: old(self)@.rows.update(i as int, m@),
                ..old(self)@
            }),
            final(self)@.well_formed(),
    {
        proof {
            use_type_invariant(&*self);
        }
        let ghost before = self@;
        let mut rows: Vec<Manga> = Vec::new();
        std::mem::swap(&mut rows, &mut self.rows);
        let ghost view = m@;
        rows.set(i, m);
        assert(row_views(rows@) =~= before.rows.update(i as int, view));
        self.rows = rows;
        assert(self@.rows == before.rows.update(i as int, view));
    }

    /// The library that holds the rows, with `last_id` as the last id
    /// given out. There is none unless the ids are in ascending order,
    /// positive and at most `last_id`, and the URLs differ.
    pub fn from_rows(rows: Vec<Manga>, last_id: i64) -> (r: Option<Library>)
        ensures
            match r {
                Some(lib) => {
                    &&& lib@ == (LibraryView { rows: row_views(rows@), last_id })
                    &&& lib@.well_formed()
                },
                None => !(LibraryView { rows: row_views(rows@), last_id }).well_formed(),
            },
    {
        let ghost view = LibraryView { rows: row_views(rows@), last_id };
        if last_id < 0 {
            return None;
        }
        let mut i: usize = 0;
        while i < rows.len()
            invariant
                i <= rows@.len(),
                last_id >= 0,
                view == (LibraryView { rows: row_views(rows@), last_id }),
                (LibraryView { rows: view.rows.take(i as int), last_id }).well_formed(),
            decreases rows@.len() - i,
        {
            let ghost head = LibraryView { rows: view.rows.take(i as int), last_id };
            assert(view.rows[i as int] == rows@[i as int]@);
            if rows[i].id < 1 || rows[i].id > last_id {
                return None;
            }
            if i > 0 && rows[i - 1].id >= rows[i].id {
                assert(view.rows[i - 1].id >= view.rows[i as int].id);
                return None;
            }
            let mut j: usize = 0;
            while j < i
                invariant
                    j <= i < rows@.len(),
                    view == (LibraryView { rows: row_views(rows@), last_id }),
                    forall|k: int|
                        0 <= k < j ==> (#[trigger] view.rows[k]).url != view.rows[i as int].url,
                decreases i - j,
            {
                if rows[j].url.as_str().eq(rows[i].url.as_str()) {
                    assert(view.rows[j as int].url == view.rows[i as int].url);
                    return None;
                }
                j = j + 1;
            }
            proof {
                let next = LibraryView { rows: view.rows.take(i + 1), last_id };
                assert(next.rows =~= head.rows.push(view.rows[i as int]));
                assert(i > 0 ==> head.rows[i - 1] == view.rows[i - 1]);
                assert forall|k: int| 0 <= k < i implies (#[trigger] next.rows[k]).id
                    < next.rows[i as int].id by {
                    assert(next.rows[k] == head.rows[k]);
                }
                assert forall|k: int| 0 <= k < i implies (#[trigger] next.rows[k]).url
                    != next.rows[i as int].url by {
                    assert(next.rows[k] == view.rows[k]);
                }
                assert(next.well_formed());
            }
            i = i + 1;
        }
        assert(view.rows.take(i as int) =~= view.rows);
        Some(Library { rows, last_id })
    }

    /// Adds a manga at `now`. A URL that is already in the library is
    /// refused, and so is any when no id is left.
    pub fn add(
        &mut self,
        url: &str,
        title: &str,
        cover_path: Option<&str>,
        now: i64,
    ) -> (r: Result<Manga, Error>)
        ensures
            match r {
                Ok(m) => {
                    &&& old(self)@.last_id < i64::MAX
                    &&& !old(self)@.has_url(url@)
                    &&& m@ == new_row(
                        (old(self)@.last_id + 1) as i64,
                        url@,
                        title@,
                        str_view(cover_path),
                        now,
                    )
                    &&& final(self)@ == old(self)@.with_new(m@)
                },
                Err(Error::Db(text)) => {
                    &&& old(self)@.last_id == i64::MAX
                    &&& text@ == "database or disk is full"@
                    &&& final(self)@ == old(self)@
                },
                Err(Error::Other(text)) => {
                    &&& old(self)@.last_id < i64::MAX
                    &&& old(self)@.has_url(url@)
                    &&& text@ == url@ + " is already in the library"@
                    &&& final(self)@ == old(self)@
                },
                Err(_) => false,
            },
            final(self)@.well_formed(),
    {
        proof {
            use_type_invariant(&*self);
        }
        if self.last_id == i64::MAX {
            return Err(Error::Db("database or disk is full".to_owned()));
        }
        if self.contains_url(url) {
            let mut text = url.to_owned();
            text.append(" is already in the library");
            return Err(Error::Other(text));
        }
        let m = Manga {
            id: self.last_id + 1,
            url: url.to_owned(),
            title: title.to_owned(),
            cover_path: match cover_path {
                Some(path) => Some(path.to_owned()),
                None => None,
            },
            created_at: now,
            last_read_url: None,
            last_read_chapter: None,
            last_read_at: None,
            latest_chapter: None,
            latest_chapter_url: None,
            last_checked_at: None,
            has_new: false,
        };
        let row = m.clone();
        let ghost before = self@;
        let mut rows: Vec<Manga> = Vec::new();
        std::mem::swap(&mut rows, &mut self.rows);
        self.last_id = m.id;
        rows.push(row);
        assert(row_views(rows@) =~= before.rows.push(m@));
        proof {
            let after = before.with_new(m@);
            assert forall|j: int| 0 <= j < before.rows.len() implies (#[trigger] after.rows[j])
                == before.rows[j] by {}
            assert(after.well_formed());
        }
        self.rows = rows;
        Ok(m)
    }

    /// The manga with the id.
    pub fn get(&self, id: i64) -> (r: Result<Option<Manga>, Error>)
        ensures
            match r {
                Ok(Some(m)) => self@.row(id) == Some(m@),
                Ok(None) => self@.row(id) is None,
                Err(_) => false,
            },
            self@.well_formed(),
    {
        proof {
            use_type_invariant(self);
            lemma_changed(self@, id, |m: MangaView| m);
        }
        match self.index_of(id) {
            Some(i) => Ok(Some(self.rows[i].clone())),
            None => Ok(None),
        }
    }

    /// All manga: those with news first, then the ones touched last.
    pub fn list(&self) -> (r: Result<Vec<Manga>, Error>)
        ensures
            match r {
                Ok(list) => {
                    &&& row_views(list@).to_multiset() == self@.rows.to_multiset()
                    &&& forall|i: int, j: int|
                        0 <= i < j < list@.len() ==> listed_before(
                            #[trigger] row_views(list@)[i],
                            #[trigger] row_views(list@)[j],
                        )
                },
                Err(_) => false,
            },
            self@.well_formed(),
    {
        proof {
            use_type_invariant(self);
        }
        let mut list: Vec<Manga> = Vec::new();
        let mut n: usize = 0;
        assert(row_views(list@) =~= self@.rows.take(0));
        while n < self.rows.len()
            invariant
                n <= self.rows@.len(),
                self@.well_formed(),
                row_views(list@).to_multiset() == self@.rows.take(n as int).to_multiset(),
                forall|i: int, j: int|
                    0 <= i < j < list@.len() ==> listed_before(
                        #[trigger] row_views(list@)[i],
                        #[trigger] row_views(list@)[j],
                    ),
                forall|i: int|
                    0 <= i < list@.len() ==> (#[trigger] row_views(list@)[i]).id
                        < self@.rows[n as int].id || n == self.rows@.len(),
            decreases self.rows@.len() - n,
        {
            let m = self.rows[n].clone();
            let ghost view = m@;
            let ghost before = row_views(list@);
            let mut at: usize = 0;
            while at < list.len() && !comes_before(&m, &list[at])
                invariant
                    at <= list@.len(),
                    m@ == view,
                    before == row_views(list@),
                    forall|i: int|
                        0 <= i < at ==> !listed_before(view, #[trigger] row_views(list@)[i]),
                decreases list@.len() - at,
            {
                assert(!listed_before(view, row_views(list@)[at as int]));
                at = at + 1;
            }
            assert(at < list@.len() ==> listed_before(view, before[at as int]));
            list.insert(at, m);
            proof {
                let after = row_views(list@);
                assert(after =~= before.insert(at as int, view));
                vstd::seq_lib::to_multiset_insert(before, at as int, view);
                assert(self@.rows.take(n + 1) =~= self@.rows.take(n as int).push(view));
                broadcast use vstd::seq_lib::group_to_multiset_ensures;

                assert(self@.rows.take(n + 1).to_multiset() == self@.rows.take(
                    n as int,
                ).to_multiset().insert(view));
                assert forall|i: int, j: int| 0 <= i < j < after.len() implies listed_before(
                    #[trigger] after[i],
                    #[trigger] after[j],
                ) by {
                    let i0 = if i < at { i } else { i - 1 };
                    let j0 = if j < at { j } else { j - 1 };
                    if i != at && j != at {
                        assert(listed_before(before[i0], before[j0]));
                    } else if i == at {
                        assert(at < j);
                        assert(after[j] == before[j - 1]);
                        if j - 1 > at {
                            assert(listed_before(before[at as int], before[j - 1]));
                        }
                    } else {
                        assert(after[i] == before[i]);
                    }
                }
            }
            n = n + 1;
        }
        assert(self@.rows.take(n as int) =~= self@.rows);
        Ok(list)
    }

    /// Removes the manga with the id, where there is one.
    pub fn remove(&mut self, id: i64) -> (r: Result<(), Error>)
        ensures
            r is Ok,
            final(self)@ == old(self)@.without(id),
            final(self)@.well_formed(),
    {
        proof {
            use_type_invariant(&*self);
        }
        let ghost before = self@;
        match self.index_of(id) {
            Some(i) => {
                proof {
                    lemma_without(before.rows, id, i as int);
                }
                let mut rows: Vec<Manga> = Vec::new();
                std::mem::swap(&mut rows, &mut self.rows);
                rows.remove(i);
                assert(row_views(rows@) =~= before.rows.remove(i as int));
                self.rows = rows;
            },
            None => {
                proof {
                    assert forall|j: int| 0 <= j < before.rows.len() implies (
                    #[trigger] before.rows[j]).id != id by {
                        assert(!before.row_at(id, j));
                    }
                    lemma_without(before.rows, id, -1);
                }
            },
        }
        Ok(())
    }

    /// Sets the cover of the manga with the id, where there is one.
    pub fn set_cover(&mut self, id: i64, cover_path: &str) -> (r: Result<(), Error>)
        ensures
            r is Ok,
            final(self)@ == old(self)@.changed(id, |m: MangaView| with_cover(m, cover_path@)),
            final(self)@.well_formed(),
    {
        proof {
            use_type_invariant(&*self);
            lemma_changed(self@, id, |m: MangaView| with_cover(m, cover_path@));
        }
        if let Some(i) = self.index_of(id) {
            let mut m = self.rows[i].clone();
            m.cover_path = Some(cover_path.to_owned());
            self.put(i, m);
        }
        Ok(())
    }

    /// Sets the title of the manga with the id, where there is one.
    pub fn set_title(&mut self, id: i64, title: &str) -> (r: Result<(), Error>)
        ensures
            r is Ok,
            final(self)@ == old(self)@.changed(id, |m: MangaView| with_title(m, title@)),
            final(self)@.well_formed(),
    {
        proof {
            use_type_invariant(&*self);
            lemma_changed(self@, id, |m: MangaView| with_title(m, title@));
        }
        if let Some(i) = self.index_of(id) {
            let mut m = self.rows[i].clone();
            m.title = title.to_owned();
            self.put(i, m);
        }
        Ok(())
    }

    /// Record that the reader window navigated to `url` at `now`. When a
    /// chapter number was parsed from it, reading progress moves forward
    /// (never backward — re-reading chapter 3 keeps "last read: 7"), and
    /// the NEW badge clears once the newest known chapter has been opened.
    /// A chapter newer than the known latest also advances the latest.
    pub fn record_read(
        &mut self,
        id: i64,
        url: &str,
        chapter: Option<&ChapterNumber>,
        now: i64,
    ) -> (r: Result<(), Error>)
        ensures
            r is Ok,
            final(self)@ == old(self)@.changed(
                id,
                |m: MangaView| after_read(m, url@, chapter_view(chapter), now),
            ),
            final(self)@.well_formed(),
    {
        proof {
            use_type_invariant(&*self);
            lemma_changed(
                self@,
                id,
                |m: MangaView| after_read(m, url@, chapter_view(chapter), now),
            );
        }
        if let Some(i) = self.index_of(id) {
            let mut m = self.rows[i].clone();
            m.record_read(url, chapter, now);
            self.put(i, m);
        }
        Ok(())
    }

    /// Store the result of an update check at `now`. Returns `true` when
    /// this discovered a chapter newer than the previously known latest
    /// AND newer than what the user has read — i.e. worth a notification.
    pub fn update_latest(
        &mut self,
        id: i64,
        number: &ChapterNumber,
        url: &str,
        now: i64,
    ) -> (r: Result<bool, Error>)
        ensures
            r == Ok::<bool, Error>(
                match old(self)@.row(id) {
                    Some(m) => is_news(m, number@),
                    None => false,
                },
            ),
            final(self)@ == old(self)@.changed(
                id,
                |m: MangaView| after_check(m, number@, url@, now),
            ),
            final(self)@.well_formed(),
    {
        proof {
            use_type_invariant(&*self);
            lemma_changed(self@, id, |m: MangaView| after_check(m, number@, url@, now));
        }
        match self.index_of(id) {
            Some(i) => {
                let mut m = self.rows[i].clone();
                let news: bool = m.update_latest(number, url, now);
                self.put(i, m);
                Ok(news)
            },
            None => Ok(false),
        }
    }

    /// Baseline the latest chapter at add time without triggering the
    /// NEW badge.
    pub fn baseline_latest(
        &mut self,
        id: i64,
        number: &ChapterNumber,
        url: &str,
        now: i64,
    ) -> (r: Result<(), Error>)
        ensures
            r is Ok,
            final(self)@ == old(self)@.changed(
                id,
                |m: MangaView| after_baseline(m, number@, url@, now),
            ),
            final(self)@.well_formed(),
    {
        proof {
            use_type_invariant(&*self);
            lemma_changed(self@, id, |m: MangaView| after_baseline(m, number@, url@, now));
        }
        if let Some(i) = self.index_of(id) {
            let mut m = self.rows[i].clone();
            m.latest_chapter = Some(number.clone());
            m.latest_chapter_url = Some(url.to_owned());
            m.last_checked_at = Some(now);
            self.put(i, m);
        }
        Ok(())
    }
}

/// What is left after filtering out an id was there before.
proof fn lemma_filter_member(rows: Seq<MangaView>, id: i64, i: int)
    requires
        0 <= i < rows.filter(other_than(id)).len(),
    ensures
        exists|j: int| 0 <= j < rows.len() && rows[j] == rows.filter(other_than(id))[i],
    decreases rows.len(),
{
    reveal(Seq::filter);
    if rows.len() > 0 {
        let rest = rows.drop_last();
        if i < rest.filter(other_than(id)).len() {
            lemma_filter_member(rest, id, i);
            let j = choose|j: int|
                0 <= j < rest.len() && rest[j] == rest.filter(other_than(id))[i];
            assert(rows[j] == rows.filter(other_than(id))[i]);
        } else {
            assert(rows[rows.len() - 1] == rows.filter(other_than(id))[i]);
        }
    }
}

// ---------- the laws of the library ----------

/// Law: a change of one manga shows in that manga and in no other.
pub proof fn law_change_is_local(
    v: LibraryView,
    id: i64,
    other: i64,
    f: spec_fn(MangaView) -> MangaView,
)
    requires
        v.well_formed(),
        forall|m: MangaView| (#[trigger] f(m)).id == m.id && f(m).url == m.url,
        other != id,
    ensures
        v.changed(id, f).well_formed(),
        v.changed(id, f).row(id) == (match v.row(id) {
            Some(m) => Some(f(m)),
            None => None,
        }),
        v.changed(id, f).row(other) == v.row(other),
{
    let w = v.changed(id, f);
    assert forall|i: int| 0 <= i < v.rows.len() implies (#[trigger] w.rows[i]).id == v.rows[i].id
        && w.rows[i].url == v.rows[i].url by {}
    assert(w.well_formed());
    lemma_same_ids(v, w, id);
    lemma_same_ids(v, w, other);
}

/// Libraries with the same ids have their rows at the same places.
proof fn lemma_same_ids(v: LibraryView, w: LibraryView, id: i64)
    requires
        v.well_formed(),
        w.well_formed(),
        v.rows.len() == w.rows.len(),
        forall|i: int| 0 <= i < v.rows.len() ==> (#[trigger] w.rows[i]).id == v.rows[i].id,
    ensures
        v.row(id) is Some <==> w.row(id) is Some,
        forall|i: int| #[trigger]
            v.row_at(id, i) ==> v.row(id) == Some(v.rows[i]) && w.row(id) == Some(w.rows[i]),
{
    let same = |m: MangaView| m;
    lemma_changed(v, id, same);
    lemma_changed(w, id, same);
    assert forall|i: int| #[trigger] v.row_at(id, i) implies w.row_at(id, i) by {
        assert(w.rows[i].id == v.rows[i].id);
    }
    assert forall|i: int| #[trigger] w.row_at(id, i) implies v.row_at(id, i) by {
        assert(w.rows[i].id == v.rows[i].id);
    }
}

/// Law: what was added is found under its id, every other manga stays as
/// it was, and the URL is taken from then on.
pub proof fn law_add_then_get(v: LibraryView, m: MangaView, other: i64)
    requires
        v.well_formed(),
        m.id == v.last_id + 1,
        !v.has_url(m.url),
        other != m.id,
    ensures
        v.with_new(m).well_formed(),
        v.with_new(m).row(m.id) == Some(m),
        v.with_new(m).row(other) == v.row(other),
        v.with_new(m).has_url(m.url),
        v.row(m.id) is None,
{
    let w = v.with_new(m);
    let last = v.rows.len() as int;
    assert forall|i: int| 0 <= i < last implies (#[trigger] w.rows[i]) == v.rows[i] by {}
    assert(w.well_formed());
    let same = |m: MangaView| m;
    lemma_changed(w, m.id, same);
    assert(w.row_at(m.id, last));
    assert(w.rows[last].url == m.url);
    lemma_changed(v, m.id, same);
    lemma_changed(v, other, same);
    lemma_changed(w, other, same);
    assert forall|i: int| #[trigger] v.row_at(other, i) implies w.row_at(other, i) by {}
    assert forall|i: int| #[trigger] w.row_at(other, i) implies v.row_at(other, i) by {}
    if v.row(other) is None {
        assert(forall|i: int| !w.row_at(other, i));
    } else {
        let i = choose|i: int| v.row_at(other, i);
        assert(w.row_at(other, i));
    }
    if v.row(m.id) is Some {
        let i = choose|i: int| v.row_at(m.id, i);
        assert(v.rows[i].id <= v.last_id);
    }
}

/// Law: a manga that was removed is gone, its URL is free again, every
/// other manga stays as it was, and the ids go on from where they were.
pub proof fn law_remove_then_get(v: LibraryView, id: i64, other: i64)
    requires
        v.well_formed(),
        other != id,
    ensures
        v.without(id).well_formed(),
        v.without(id).row(id) is None,
        v.without(id).row(other) == v.row(other),
        v.without(id).last_id == v.last_id,
        v.row(id) is Some ==> !v.without(id).has_url(v.row(id)->0.url),
        v.row(id) is None ==> v.without(id) == v,
{
    let w = v.without(id);
    let same = |m: MangaView| m;
    lemma_changed(v, id, same);
    if v.row(id) is Some {
        let k = choose|i: int| v.row_at(id, i);
        assert forall|j: int| 0 <= j < v.rows.len() && j != k implies (#[trigger] v.rows[j]).id
            != id by {}
        lemma_without(v.rows, id, k);
        assert forall|i: int| 0 <= i < w.rows.len() implies (#[trigger] w.rows[i]) == v.rows[if i
            < k {
            i
        } else {
            i + 1
        }] by {}
        assert(w.well_formed());
        lemma_changed(w, id, same);
        lemma_changed(w, other, same);
        lemma_changed(v, other, same);
        assert(forall|i: int| !w.row_at(id, i));
        if v.row(other) is Some {
            let i = choose|i: int| v.row_at(other, i);
            assert(w.row_at(other, if i < k { i } else { i - 1 }));
        } else {
            assert forall|i: int| !w.row_at(other, i) by {
                if w.row_at(other, i) {
                    assert(v.row_at(other, if i < k { i } else { i + 1 }));
                }
            }
        }
    } else {
        assert forall|j: int| 0 <= j < v.rows.len() implies (#[trigger] v.rows[j]).id != id by {
            assert(!v.row_at(id, j));
        }
        lemma_without(v.rows, id, -1);
    }
}

/// Law: progress never moves backward. What was read stays read, the
/// chapter just opened counts as read, and the latest chapter known is
/// never less than it was, nor than the chapter just opened.
pub proof fn law_progress_never_backward(
    m: MangaView,
    url: Seq<char>,
    chapter: Option<Decimal>,
    now: i64,
)
    ensures
        ({
            let after = after_read(m, url, chapter, now);
            &&& m.last_read_chapter is Some ==> after.last_read_chapter is Some
                && !after.last_read_chapter->0.less(m.last_read_chapter->0)
            &&& m.latest_chapter is Some ==> after.latest_chapter is Some
                && !after.latest_chapter->0.less(m.latest_chapter->0)
            &&& chapter is Some ==> after.last_read_chapter is Some && after.latest_chapter is Some
                && !after.last_read_chapter->0.less(chapter->0) && !after.latest_chapter->0.less(
                chapter->0,
            )
        }),
{
}

/// Law: the last read URL and time are those of the latest navigation,
/// whatever its chapter; without a chapter nothing else changes.
pub proof fn law_navigation_recorded(
    m: MangaView,
    url: Seq<char>,
    chapter: Option<Decimal>,
    now: i64,
)
    ensures
        after_read(m, url, chapter, now).last_read_url == Some(url),
        after_read(m, url, chapter, now).last_read_at == Some(now),
        after_read(m, url, None, now) == (MangaView {
            last_read_url: Some(url),
            last_read_at: Some(now),
            ..m
        }),
{
}

/// Law: opening the latest chapter known, or one beyond it, clears the
/// badge.
pub proof fn law_reading_latest_clears_badge(
    m: MangaView,
    url: Seq<char>,
    chapter: Decimal,
    now: i64,
)
    requires
        m.latest_chapter is Some ==> !chapter.less(m.latest_chapter->0),
    ensures
        !after_read(m, url, Some(chapter), now).has_new,
{
    if m.latest_chapter is Some && m.last_read_chapter is Some {
        let latest = m.latest_chapter->0;
        let read = m.last_read_chapter->0;
        if !read.less(chapter) && read.less(latest) {
            law_not_greater_less(chapter, read, latest);
        }
    }
}

/// Law: a check that finds nothing beyond the latest chapter known, or
/// nothing beyond what was read, is no news; so the same result twice is
/// news at most once.
pub proof fn law_no_repeated_news(m: MangaView, number: Decimal, url: Seq<char>, now: i64)
    ensures
        !is_news(after_check(m, number, url, now), number),
        m.latest_chapter is Some && !m.latest_chapter->0.less(number) ==> !is_news(m, number),
        m.last_read_chapter is Some && !m.last_read_chapter->0.less(number) ==> !is_news(m, number),
        !is_news(after_read(m, url, Some(number), now), number),
{
}

/// Law: a check never touches what was read, and the latest chapter known
/// never moves backward.
pub proof fn law_check_keeps_progress(m: MangaView, number: Decimal, url: Seq<char>, now: i64)
    ensures
        ({
            let after = after_check(m, number, url, now);
            &&& after.last_read_chapter == m.last_read_chapter
            &&& after.last_read_url == m.last_read_url
            &&& after.last_read_at == m.last_read_at
            &&& m.has_new ==> after.has_new
            &&& after.latest_chapter is Some
            &&& !after.latest_chapter->0.less(number)
            &&& m.latest_chapter is Some ==> !after.latest_chapter->0.less(m.latest_chapter->0)
        }),
{
}

/// Law: neither the baseline nor the first check of a manga gives it the
/// badge.
pub proof fn law_baseline_no_badge(m: MangaView, number: Decimal, url: Seq<char>, now: i64)
    ensures
        after_baseline(m, number, url, now).has_new == m.has_new,
        m.latest_chapter is None ==> !is_news(m, number) && after_check(m, number, url, now).has_new
            == m.has_new,
{
}

/// The badge is shown only where the latest chapter known is beyond what
/// was read.
pub open spec fn badge_justified(m: MangaView) -> bool {
    m.has_new ==> m.latest_chapter is Some && beyond(m.latest_chapter->0, m.last_read_chapter)
}

/// Law: the badge stays justified through additions, navigations and
/// checks, and through a baseline of a manga that has no badge.
pub proof fn law_badge_stays_justified(
    m: MangaView,
    url: Seq<char>,
    chapter: Option<Decimal>,
    number: Decimal,
    now: i64,
)
    requires
        badge_justified(m),
    ensures
        badge_justified(new_row(m.id, url, m.title, m.cover_path, now)),
        badge_justified(with_cover(m, url)),
        badge_justified(with_title(m, url)),
        badge_justified(after_read(m, url, chapter, now)),
        badge_justified(after_check(m, number, url, now)),
        !m.has_new ==> badge_justified(after_baseline(m, number, url, now)),
{
    if m.has_new && m.last_read_chapter is Some {
        let read = m.last_read_chapter->0;
        let latest = m.latest_chapter->0;
        if latest.less(number) {
            law_order_transitive(read, latest, number);
        }
        if chapter is Some && latest.less(chapter->0) {
            law_order_transitive(read, latest, chapter->0);
        }
    }
}

/// Law: in a library whose badges are justified they stay so, whatever is
/// added, removed, renamed, read or checked.
pub proof fn law_library_badges_stay_justified(
    v: LibraryView,
    id: i64,
    m: MangaView,
    url: Seq<char>,
    chapter: Option<Decimal>,
    number: Decimal,
    now: i64,
)
    requires
        badges_justified(v),
    ensures
        !m.has_new ==> badges_justified(v.with_new(m)),
        badges_justified(v.without(id)),
        badges_justified(v.changed(id, |m: MangaView| with_cover(m, url))),
        badges_justified(v.changed(id, |m: MangaView| with_title(m, url))),
        badges_justified(v.changed(id, |m: MangaView| after_read(m, url, chapter, now))),
        badges_justified(v.changed(id, |m: MangaView| after_check(m, number, url, now))),
{
    assert forall|i: int| 0 <= i < v.without(id).rows.len() implies badge_justified(
        #[trigger] v.without(id).rows[i],
    ) by {
        lemma_filter_member(v.rows, id, i);
    }
    assert forall|i: int| 0 <= i < v.rows.len() implies {
        &&& badge_justified(after_read(#[trigger] v.rows[i], url, chapter, now))
        &&& badge_justified(after_check(v.rows[i], number, url, now))
    } by {
        law_badge_stays_justified(v.rows[i], url, chapter, number, now);
    }
}

/// The badge of every manga is justified.
pub open spec fn badges_justified(v: LibraryView) -> bool {
    forall|i: int| 0 <= i < v.rows.len() ==> badge_justified(#[trigger] v.rows[i])
}

/// Law: the list is determined by the rows: two lists of the same manga,
/// both in the order of the list, are the same.
pub proof fn law_list_unique(a: Seq<MangaView>, b: Seq<MangaView>)
    requires
        a.to_multiset() == b.to_multiset(),
        forall|i: int, j: int|
            0 <= i < j < a.len() ==> listed_before(#[trigger] a[i], #[trigger] a[j]),
        forall|i: int, j: int|
            0 <= i < j < b.len() ==> listed_before(#[trigger] b[i], #[trigger] b[j]),
    ensures
        a == b,
    decreases a.len(),
{
    broadcast use vstd::seq_lib::group_to_multiset_ensures;

    assert(a.len() == a.to_multiset().len());
    assert(b.len() == b.to_multiset().len());
    if a.len() == 0 {
        assert(a =~= b);
    } else {
        assert(a.contains(a[0]));
        assert(b.contains(b[0]));
        assert(a.to_multiset().count(a[0]) > 0);
        assert(b.to_multiset().count(b[0]) > 0);
        assert(b.contains(a[0]));
        assert(a.contains(b[0]));
        let i = choose|i: int| 0 <= i < b.len() && b[i] == a[0];
        let j = choose|j: int| 0 <= j < a.len() && a[j] == b[0];
        assert(i > 0 ==> listed_before(b[0], b[i]));
        assert(j > 0 ==> listed_before(a[0], a[j]));
        assert(a[0] == b[0]);
        let a1 = a.remove(0);
        let b1 = b.remove(0);
        assert(a1.to_multiset() == b1.to_multiset());
        assert forall|i: int, j: int| 0 <= i < j < a1.len() implies listed_before(
            #[trigger] a1[i],
            #[trigger] a1[j],
        ) by {
            assert(listed_before(a[i + 1], a[j + 1]));
        }
        assert forall|i: int, j: int| 0 <= i < j < b1.len() implies listed_before(
            #[trigger] b1[i],
            #[trigger] b1[j],
        ) by {
            assert(listed_before(b[i + 1], b[j + 1]));
        }
        law_list_unique(a1, b1);
        assert(a =~= seq![a[0]] + a1);
        assert(b =~= seq![b[0]] + b1);
    }
}

/// `number` is not behind the one known, or none is known.
pub open spec fn reaches(number: Decimal, known: Option<Decimal>) -> bool {
    known is None || !number.less(known->0)
}

/// `known` is behind `number`, or no number is known.
pub open spec fn is_behind(known: Option<Decimal>, number: Decimal) -> bool {
    known is None || known->0.less(number)
}

/// Law: a check is news exactly where a latest chapter was known, the one
/// found is beyond it, and nothing was read or what was read is behind the
/// one found. News gives the badge, and no other check changes it.
pub proof fn law_news(m: MangaView, number: Decimal, url: Seq<char>, now: i64)
    ensures
        m.latest_chapter is Some && m.latest_chapter->0.less(number) && is_behind(
            m.last_read_chapter,
            number,
        ) ==> is_news(m, number) && after_check(m, number, url, now).has_new,
        m.latest_chapter is None || !m.latest_chapter->0.less(number) || (
        m.last_read_chapter is Some && !m.last_read_chapter->0.less(number)) ==> !is_news(m, number)
            && after_check(m, number, url, now).has_new == m.has_new,
{
}

/// Law: a check that finds a chapter beyond the latest one known, or the
/// first one, makes it the latest one, with its URL; any other check keeps
/// both. Every check stamps the time, and touches nothing else but the
/// badge.
pub proof fn law_check_fields(m: MangaView, number: Decimal, url: Seq<char>, now: i64)
    ensures
        ({
            let after = after_check(m, number, url, now);
            &&& is_behind(m.latest_chapter, number) ==> after.latest_chapter == Some(number)
                && after.latest_chapter_url == Some(url)
            &&& !is_behind(m.latest_chapter, number) ==> after.latest_chapter == m.latest_chapter
                && after.latest_chapter_url == m.latest_chapter_url
            &&& after.last_checked_at == Some(now)
            &&& after.id == m.id && after.url == m.url && after.title == m.title
            &&& after.cover_path == m.cover_path && after.created_at == m.created_at
            &&& after.last_read_url == m.last_read_url && after.last_read_at == m.last_read_at
            &&& after.last_read_chapter == m.last_read_chapter
        }),
{
}

/// Law: a chapter that is opened becomes the one read last where it is
/// beyond that, and the latest one, with its URL, where it is beyond that;
/// otherwise each stays. Nothing else but the badge and the navigation
/// changes.
pub proof fn law_read_fields(m: MangaView, url: Seq<char>, c: Decimal, now: i64)
    ensures
        ({
            let after = after_read(m, url, Some(c), now);
            &&& is_behind(m.last_read_chapter, c) ==> after.last_read_chapter == Some(c)
            &&& !is_behind(m.last_read_chapter, c) ==> after.last_read_chapter
                == m.last_read_chapter
            &&& is_behind(m.latest_chapter, c) ==> after.latest_chapter == Some(c)
                && after.latest_chapter_url == Some(url)
            &&& !is_behind(m.latest_chapter, c) ==> after.latest_chapter == m.latest_chapter
                && after.latest_chapter_url == m.latest_chapter_url
            &&& after.last_read_url == Some(url) && after.last_read_at == Some(now)
            &&& after.id == m.id && after.url == m.url && after.title == m.title
            &&& after.cover_path == m.cover_path && after.created_at == m.created_at
            &&& after.last_checked_at == m.last_checked_at
        }),
{
}

/// Law: the badge stays where both the chapter opened and the one read
/// before are behind the latest one, goes where one of them reaches it, and
/// never comes from reading.
pub proof fn law_read_badge(m: MangaView, url: Seq<char>, c: Decimal, now: i64)
    ensures
        m.has_new && m.latest_chapter is Some && c.less(m.latest_chapter->0) && is_behind(
            m.last_read_chapter,
            m.latest_chapter->0,
        ) ==> after_read(m, url, Some(c), now).has_new,
        reaches(c, m.latest_chapter) ==> !after_read(m, url, Some(c), now).has_new,
        m.last_read_chapter is Some && reaches(m.last_read_chapter->0, m.latest_chapter)
            ==> !after_read(m, url, Some(c), now).has_new,
        !m.has_new ==> !after_read(m, url, Some(c), now).has_new,
{
    if m.latest_chapter is Some && m.last_read_chapter is Some {
        let latest = m.latest_chapter->0;
        let read = m.last_read_chapter->0;
        if !read.less(c) && read.less(latest) {
            law_not_greater_less(c, read, latest);
        }
        if read.less(c) && c.less(latest) {
            law_order_transitive(read, c, latest);
        }
    }
}

/// Law: a baseline sets the latest chapter, its URL and the time of the
/// check, whatever they were, and nothing else; a new title or cover
/// changes that alone.
pub proof fn law_set_fields(m: MangaView, number: Decimal, url: Seq<char>, now: i64)
    ensures
        ({
            let after = after_baseline(m, number, url, now);
            &&& after.latest_chapter == Some(number) && after.latest_chapter_url == Some(url)
            &&& after.last_checked_at == Some(now) && after.has_new == m.has_new
            &&& after.id == m.id && after.url == m.url && after.title == m.title
            &&& after.cover_path == m.cover_path && after.created_at == m.created_at
            &&& after.last_read_url == m.last_read_url && after.last_read_at == m.last_read_at
            &&& after.last_read_chapter == m.last_read_chapter
        }),
        with_title(m, url).title == url,
        with_title(m, url).cover_path == m.cover_path,
        with_cover(m, url).cover_path == Some(url),
        with_cover(m, url).title == m.title,
        same_but_texts(m, with_title(m, url)),
        same_but_texts(m, with_cover(m, url)),
{
}

/// The two differ at most in title and cover.
pub open spec fn same_but_texts(m: MangaView, other: MangaView) -> bool {
    &&& other.id == m.id && other.url == m.url && other.created_at == m.created_at
    &&& other.last_read_url == m.last_read_url && other.last_read_at == m.last_read_at
    &&& other.last_read_chapter == m.last_read_chapter
    &&& other.latest_chapter == m.latest_chapter
    &&& other.latest_chapter_url == m.latest_chapter_url
    &&& other.last_checked_at == m.last_checked_at && other.has_new == m.has_new
}

/// Law: a manga that was just added has nothing read, nothing known and no
/// badge.
pub proof fn law_new_fields(
    id: i64,
    url: Seq<char>,
    title: Seq<char>,
    cover_path: Option<Seq<char>>,
    now: i64,
)
    ensures
        ({
            let m = new_row(id, url, title, cover_path, now);
            &&& m.id == id && m.url == url && m.title == title && m.cover_path == cover_path
            &&& m.created_at == now && !m.has_new
            &&& m.last_read_url is None && m.last_read_chapter is None && m.last_read_at is None
            &&& m.latest_chapter is None && m.latest_chapter_url is None
            &&& m.last_checked_at is None
        }),
{
}

/// Law: a URL is taken exactly where some manga of the library has it.
pub proof fn law_url_taken(v: LibraryView, url: Seq<char>)
    requires
        v.well_formed(),
    ensures
        v.has_url(url) <==> exists|id: i64| v.row(id) is Some && (#[trigger] v.row(id))->0.url
            == url,
{
    let same = |m: MangaView| m;
    if v.has_url(url) {
        let i = choose|i: int| 0 <= i < v.rows.len() && (#[trigger] v.rows[i]).url == url;
        let id = v.rows[i].id;
        lemma_changed(v, id, same);
        assert(v.row_at(id, i));
        assert(v.row(id) == Some(v.rows[i]));
    }
    if exists|id: i64| v.row(id) is Some && (#[trigger] v.row(id))->0.url == url {
        let id = choose|id: i64| v.row(id) is Some && (#[trigger] v.row(id))->0.url == url;
        let i = choose|i: int| v.row_at(id, i);
        lemma_changed(v, id, same);
        assert(v.row_at(id, i));
        assert(v.rows[i].url == url);
    }
}

/// Law: rows make a library exactly where their ids ascend, are positive
/// and not beyond the last one given out, and no URL occurs twice.
pub proof fn law_well_formed(v: LibraryView)
    ensures
        v.well_formed() <==> {
            &&& v.last_id >= 0
            &&& forall|i: int|
                0 <= i < v.rows.len() ==> 1 <= (#[trigger] v.rows[i]).id <= v.last_id
            &&& forall|i: int, j: int|
                0 <= i < j < v.rows.len() ==> (#[trigger] v.rows[i]).id < (#[trigger] v.rows[j]).id
                    && v.rows[i].url != v.rows[j].url
        },
{
}

/// Law: a row is the manga of the library that has the id.
pub proof fn law_row(v: LibraryView, id: i64)
    requires
        v.well_formed(),
    ensures
        v.row(id) matches Some(m) ==> m.id == id && v.rows.contains(m),
        v.row(id) is None ==> forall|i: int|
            0 <= i < v.rows.len() ==> (#[trigger] v.rows[i]).id != id,
{
    lemma_changed(v, id, |m: MangaView| m);
    if v.row(id) is Some {
        let i = choose|i: int| v.row_at(id, i);
        assert(v.row_at(id, i));
        assert(v.rows[i] == v.row(id)->0);
    } else {
        assert forall|i: int| 0 <= i < v.rows.len() implies (#[trigger] v.rows[i]).id != id by {
            assert(!v.row_at(id, i));
        }
    }
}

/// Law: in the list a manga with the badge comes before one without, and
/// of two alike the one read or, where it was not read, added later.
pub proof fn law_list_order(a: MangaView, b: MangaView)
    ensures
        a.has_new && !b.has_new ==> listed_before(a, b) && !listed_before(b, a),
        a.has_new == b.has_new ==> {
            let ta = if a.last_read_at is Some { a.last_read_at->0 } else { a.created_at };
            let tb = if b.last_read_at is Some { b.last_read_at->0 } else { b.created_at };
            &&& ta > tb ==> listed_before(a, b) && !listed_before(b, a)
            &&& ta == tb && a.id < b.id ==> listed_before(a, b) && !listed_before(b, a)
        },
{
}

} // verus!
