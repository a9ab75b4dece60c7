//! One saved article: remote metadata plus the changes pending locally.

use vstd::prelude::*;
use crate::changes::{ChangeFlags, Changes};
use crate::timestamp::Timestamp;

verus! {

/// The mathematical value of an [`Article`]: every field as a plain value.
#[verifier::ext_equal]
pub ghost struct ArticleView {
    pub id: Seq<char>,
    pub changed: ChangeFlags,
    pub title: Seq<char>,
    pub domain: Seq<char>,
    pub authors: Seq<Seq<char>>,
    pub format: Seq<char>,
    pub language: Seq<char>,
    pub reading_time: u32,
    pub added: Timestamp,
    pub starred: bool,
    pub archived: bool,
}

/// Local record of one remote document's metadata and sync status.
pub struct Article {
    /// Globally unique, stable across syncs.
    pub id: String,
    /// Attributes mutated locally and not yet confirmed pushed.
    pub changed: ChangeFlags,
    pub title: String,
    /// Source site.
    pub domain: String,
    /// Ordered list of author names.
    pub authors: Vec<String>,
    /// Document type, e.g. "html" or "epub".
    pub format: String,
    pub language: String,
    /// Non-negative reading time in minutes.
    pub reading_time: u32,
    /// When the article was added, with its timezone offset.
    pub added: Timestamp,
    pub starred: bool,
    pub archived: bool,
}

impl View for Article {
    type V = ArticleView;

    open spec fn view(&self) -> ArticleView {
        ArticleView {
            id: self.id@,
            changed: self.changed,
            title: self.title@,
            domain: self.domain@,
            authors: self.authors.deep_view(),
            format: self.format@,
            language: self.language@,
            reading_time: self.reading_time,
            added: self.added,
            starred: self.starred,
            archived: self.archived,
        }
    }
}

impl DeepView for Article {
    type V = ArticleView;

    open spec fn deep_view(&self) -> ArticleView {
        self.view()
    }
}

impl Clone for Article {
    /// A clone carries the same value.
    fn clone(&self) -> (r: Self)
        ensures
            r@ == self@,
    {
        let authors = clone_strings(&self.authors);
        let r = Article {
            id: self.id.clone(),
            changed: self.changed,
            title: self.title.clone(),
            domain: self.domain.clone(),
            authors,
            format: self.format.clone(),
            language: self.language.clone(),
            reading_time: self.reading_time,
            added: self.added,
            starred: self.starred,
            archived: self.archived,
        };
        proof {
            assert(r@ =~= self@);
        }
        r
    }
}

/// An element-wise copy of a list of strings.
fn clone_strings(v: &Vec<String>) -> (r: Vec<String>)
    ensures
        r.deep_view() == v.deep_view(),
{
    let mut r: Vec<String> = Vec::new();
    let mut i: usize = 0;
    while i < v.len()
        invariant
            0 <= i <= v.len(),
            r.len() == i,
            forall|j: int| 0 <= j < i ==> #[trigger] r@[j]@ == v@[j]@,
        decreases v.len() - i,
    {
        r.push(v[i].clone());
        i = i + 1;
    }
    proof {
        assert forall|j: int| 0 <= j < v@.len() implies r.deep_view()[j] == #[trigger] v.deep_view()[j] by {
            assert(r@[j]@ == v@[j]@);
        }
        assert(r.deep_view() =~= v.deep_view());
    }
    r
}

/// Location and size of an article's stored document.
pub struct FileInfo {
    /// Path of the stored document, under the articles directory.
    pub path: String,
    /// Document type, copied from the article's format.
    pub kind: String,
    /// Size of the stored document in bytes; zero when it cannot be
    /// inspected.
    pub size: u64,
}

/// Displayable metadata derived from an article.
pub struct Info {
    pub title: String,
    pub subtitle: String,
    /// The authors joined with ", ".
    pub author: String,
    pub year: String,
    pub language: String,
    pub publisher: String,
    pub series: String,
    pub edition: String,
    pub volume: String,
    pub number: String,
    pub identifier: String,
    pub categories: Vec<String>,
    pub file: FileInfo,
    /// When the article was added, as naive local time.
    pub added: Timestamp,
}

/// The author names joined with ", ", in order.
pub open spec fn joined_authors(l: Seq<Seq<char>>) -> Seq<char>
    decreases l.len(),
{
    if l.len() == 0 {
        Seq::empty()
    } else if l.len() == 1 {
        l[0]
    } else {
        joined_authors(l.drop_last()) + ", "@ + l.last()
    }
}

/// The path of an article's stored document: the articles directory, a fixed
/// stem carrying the id, and the format as the extension.
pub open spec fn path_view(a: ArticleView) -> Seq<char> {
    ".articles/article-"@ + a.id + "."@ + a.format
}

/// The directory all article documents and the persisted index live in.
pub fn articles_dir() -> (r: &'static str)
    ensures
        r@ == ".articles"@,
{
    ".articles"
}

/// The fixed location of the persisted index.
pub fn index_path() -> (r: &'static str)
    ensures
        r@ == ".articles/index.json"@,
{
    ".articles/index.json"
}

impl Article {
    /// The path the article's document is stored at.
    pub fn path(&self) -> (r: String)
        ensures
            r@ == path_view(self@),
    {
        let mut r = String::new();
        r.append(".articles/article-");
        r.append(self.id.as_str());
        r.append(".");
        r.append(self.format.as_str());
        r
    }

    /// The stored document's location and size. The size of the document is
    /// handed in by the caller, which inspects the file at [`Article::path`];
    /// a document that cannot be inspected degrades to size zero there.
    pub fn file(&self, size: u64) -> (r: FileInfo)
        ensures
            r.path@ == path_view(self@),
            r.kind@ == self@.format,
            r.size == size,
    {
        FileInfo { path: self.path(), kind: self.format.clone(), size }
    }

    /// Displayable metadata for the article, with the document size handed in
    /// as for [`Article::file`].
    pub fn info(&self, size: u64) -> (r: Info)
        ensures
            r.title@ == self@.title,
            r.subtitle@ == self@.domain,
            r.author@ == joined_authors(self@.authors),
            r.year@ == Seq::<char>::empty(),
            r.language@ == self@.language,
            r.publisher@ == Seq::<char>::empty(),
            r.series@ == Seq::<char>::empty(),
            r.edition@ == Seq::<char>::empty(),
            r.volume@ == Seq::<char>::empty(),
            r.number@ == Seq::<char>::empty(),
            r.identifier@ == Seq::<char>::empty(),
            r.categories.deep_view() == Seq::<Seq<char>>::empty(),
            r.file.path@ == path_view(self@),
            r.file.kind@ == self@.format,
            r.file.size == size,
            r.added == (Timestamp { offset_minutes: 0, ..self.added }),
    {
        let r = Info {
            title: self.title.clone(),
            subtitle: self.domain.clone(),
            author: self.join_authors(),
            year: String::new(),
            language: self.language.clone(),
            publisher: String::new(),
            series: String::new(),
            edition: String::new(),
            volume: String::new(),
            number: String::new(),
            identifier: String::new(),
            categories: Vec::new(),
            file: self.file(size),
            added: self.added.naive_local(),
        };
        proof {
            assert(r.categories.deep_view() =~= Seq::<Seq<char>>::empty());
        }
        r
    }

    /// The author names joined with ", ".
    fn join_authors(&self) -> (r: String)
        ensures
            r@ == joined_authors(self@.authors),
    {
        let mut r = String::new();
        let mut i: usize = 0;
        while i < self.authors.len()
            invariant
                0 <= i <= self.authors.len(),
                self@.authors.len() == self.authors.len(),
                r@ == joined_authors(self@.authors.take(i as int)),
            decreases self.authors.len() - i,
        {
            if i > 0 {
                r.append(", ");
            }
            r.append(self.authors[i].as_str());
            proof {
                assert(self@.authors.take(i as int + 1).drop_last() =~= self@.authors.take(
                    i as int,
                ));
                assert(self@.authors.take(i as int + 1).last() == self@.authors[i as int]);
            }
            i = i + 1;
        }
        proof {
            assert(self@.authors.take(self.authors.len() as int) =~= self@.authors);
        }
        r
    }

    /// Stars or unstars the article locally and records `Starred` as pending:
    /// exactly that flag is added, the other flags keep their state.
    pub fn set_starred(&mut self, value: bool)
        ensures
            final(self)@ == (ArticleView {
                starred: value,
                changed: old(self)@.changed,
                ..old(self)@
            }).with_recorded(Changes::Starred),
    {
        self.starred = value;
        self.changed.record(Changes::Starred);
        proof {
            assert(self@ =~= (ArticleView {
                starred: value,
                changed: old(self)@.changed,
                ..old(self)@
            }).with_recorded(Changes::Starred));
        }
    }

    /// Archives or unarchives the article locally and records `Archived` as
    /// pending, leaving the other flags as they were.
    pub fn set_archived(&mut self, value: bool)
        ensures
            final(self)@ == (ArticleView {
                archived: value,
                changed: old(self)@.changed,
                ..old(self)@
            }).with_recorded(Changes::Archived),
    {
        self.archived = value;
        self.changed.record(Changes::Archived);
        proof {
            assert(self@ =~= (ArticleView {
                archived: value,
                changed: old(self)@.changed,
                ..old(self)@
            }).with_recorded(Changes::Archived));
        }
    }

    /// Records a local deletion as pending; no other field moves.
    pub fn mark_deleted(&mut self)
        ensures
            final(self)@ == old(self)@.with_recorded(Changes::Deleted),
    {
        self.changed.record(Changes::Deleted);
        proof {
            assert(self@ =~= old(self)@.with_recorded(Changes::Deleted));
        }
    }

    /// Clears one pending flag after a backend confirmed the push: exactly
    /// `c` is removed, the other flags and every other field stay.
    pub fn confirm_change(&mut self, c: Changes)
        ensures
            final(self)@ == old(self)@.with_confirmed(c),
    {
        self.changed.confirm(c);
        proof {
            assert(self@ =~= old(self)@.with_confirmed(c));
        }
    }
}

impl ArticleView {
    /// The same article with `c` recorded as pending.
    pub open spec fn with_recorded(self, c: Changes) -> ArticleView {
        ArticleView {
            changed: ChangeFlags {
                deleted: self.changed.deleted || c is Deleted,
                starred: self.changed.starred || c is Starred,
                archived: self.changed.archived || c is Archived,
            },
            ..self
        }
    }

    /// The same article with the pending flag `c` cleared.
    pub open spec fn with_confirmed(self, c: Changes) -> ArticleView {
        ArticleView {
            changed: ChangeFlags {
                deleted: self.changed.deleted && !(c is Deleted),
                starred: self.changed.starred && !(c is Starred),
                archived: self.changed.archived && !(c is Archived),
            },
            ..self
        }
    }
}

} // verus!
