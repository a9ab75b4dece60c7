use articles::article::Article;
use articles::changes::{ChangeFlags, Changes};
use articles::index::ArticleIndex;
use articles::settings::ArticleList;
use articles::timestamp::Timestamp;

fn stamp() -> Timestamp {
    Timestamp {
        year: 2023,
        month: 7,
        day: 1,
        hour: 8,
        minute: 15,
        second: 30,
        offset_minutes: 60,
    }
}

fn article(id: &str) -> Article {
    Article {
        id: id.to_string(),
        changed: ChangeFlags::none(),
        title: format!("t-{}", id),
        domain: "site".to_string(),
        authors: Vec::new(),
        format: "epub".to_string(),
        language: "de".to_string(),
        reading_time: 12,
        added: stamp(),
        starred: false,
        archived: false,
    }
}

#[test]
fn upsert_keeps_sorted_unique_ids() {
    let mut idx = ArticleIndex::new();
    idx.upsert(article("m"));
    idx.upsert(article("a"));
    idx.upsert(article("z"));
    idx.upsert(article("m"));
    assert_eq!(idx.len(), 3);
    let ids: Vec<&str> = idx.articles.iter().map(|a| a.id.as_str()).collect();
    assert_eq!(ids, vec!["a", "m", "z"]);
}

#[test]
fn get_and_remove() {
    let mut idx = ArticleIndex::new();
    idx.upsert(article("one"));
    idx.upsert(article("two"));
    assert!(idx.get("one").is_some());
    assert!(idx.get("three").is_none());
    let gone = idx.remove("one");
    assert!(gone.is_some());
    assert_eq!(gone.unwrap().id, "one");
    assert!(idx.get("one").is_none());
    assert!(idx.remove("one").is_none());
    assert_eq!(idx.len(), 1);
}

#[test]
fn filter_starred_exact_and_sorted() {
    let mut idx = ArticleIndex::new();
    let mut s1 = article("c");
    s1.starred = true;
    let mut s2 = article("a");
    s2.starred = true;
    let mut arch = article("b");
    arch.archived = true;
    let mut del = article("d");
    del.changed.record(Changes::Deleted);
    idx.upsert(s1);
    idx.upsert(s2);
    idx.upsert(arch);
    idx.upsert(del);

    let starred = idx.filter(ArticleList::Starred);
    let ids: Vec<&str> = starred.iter().map(|a| a.id.as_str()).collect();
    assert_eq!(ids, vec!["a", "c"]);
    for a in &starred {
        assert!(a.starred);
    }

    let archived = idx.filter(ArticleList::Archived);
    assert_eq!(archived.len(), 1);
    assert_eq!(archived[0].id, "b");

    let unread = idx.filter(ArticleList::Unread);
    let unread_ids: Vec<&str> = unread.iter().map(|a| a.id.as_str()).collect();
    assert_eq!(unread_ids, vec!["a", "c", "d"]);

    let deleted = idx.filter(ArticleList::Deleted);
    assert_eq!(deleted.len(), 1);
    assert_eq!(deleted[0].id, "d");

    assert_eq!(idx.filter(ArticleList::All).len(), 4);
}

#[test]
fn star_adds_exactly_one_flag() {
    let mut idx = ArticleIndex::new();
    let mut a = article("x");
    a.changed.record(Changes::Archived);
    idx.upsert(a);
    assert!(idx.set_starred("x", true));
    let got = idx.get("x").unwrap();
    assert!(got.starred);
    assert!(got.changed.contains(Changes::Starred));
    assert!(got.changed.contains(Changes::Archived));
    assert!(!got.changed.contains(Changes::Deleted));
    assert!(!idx.set_starred("missing", true));
}

#[test]
fn confirm_removes_exactly_one_flag() {
    let mut idx = ArticleIndex::new();
    let mut a = article("x");
    a.changed.record(Changes::Starred);
    a.changed.record(Changes::Deleted);
    idx.upsert(a);
    assert!(idx.confirm_change("x", Changes::Starred));
    let got = idx.get("x").unwrap();
    assert!(!got.changed.contains(Changes::Starred));
    assert!(got.changed.contains(Changes::Deleted));
}

#[test]
fn mark_deleted_and_archive() {
    let mut idx = ArticleIndex::new();
    idx.upsert(article("x"));
    assert!(idx.mark_deleted("x"));
    assert!(idx.set_archived("x", true));
    let got = idx.get("x").unwrap();
    assert!(got.archived);
    assert!(got.changed.contains(Changes::Deleted));
    assert!(got.changed.contains(Changes::Archived));
}

#[test]
fn article_path_and_info() {
    let mut a = article("42");
    a.authors = vec!["Ada Lovelace".to_string(), "Charles Babbage".to_string()];
    assert_eq!(a.path(), ".articles/article-42.epub");
    let file = a.file(1234);
    assert_eq!(file.path, ".articles/article-42.epub");
    assert_eq!(file.kind, "epub");
    assert_eq!(file.size, 1234);
    // A document that cannot be inspected degrades to size zero.
    let info = a.info(0);
    assert_eq!(info.title, "t-42");
    assert_eq!(info.subtitle, "site");
    assert_eq!(info.author, "Ada Lovelace, Charles Babbage");
    assert_eq!(info.language, "de");
    assert_eq!(info.file.size, 0);
    assert_eq!(info.added.offset_minutes, 0);
    assert_eq!(info.added.hour, a.added.hour);
}

#[test]
fn change_flags_as_set() {
    let mut f = ChangeFlags::none();
    assert!(f.empty());
    f.record(Changes::Starred);
    assert!(!f.empty());
    assert!(f.contains(Changes::Starred));
    f.confirm(Changes::Starred);
    assert!(f.empty());
}

#[test]
fn default_index_is_empty() {
    let idx = ArticleIndex::default();
    assert!(idx.is_empty());
}
