use articles::article::Article;
use articles::changes::{ChangeFlags, Changes};
use articles::index::ArticleIndex;
use articles::service::{load, Backend, Dummy, Remote, Service};
use articles::settings::{ArticleAuth, ArticleList};
use articles::timestamp::Timestamp;

fn stamp() -> Timestamp {
    Timestamp {
        year: 2024,
        month: 3,
        day: 9,
        hour: 10,
        minute: 0,
        second: 0,
        offset_minutes: 0,
    }
}

fn article(id: &str) -> Article {
    Article {
        id: id.to_string(),
        changed: ChangeFlags::none(),
        title: format!("about {}", id),
        domain: "example.org".to_string(),
        authors: vec!["Ada".to_string()],
        format: "html".to_string(),
        language: "en".to_string(),
        reading_time: 3,
        added: stamp(),
        starred: false,
        archived: false,
    }
}

#[test]
fn dummy_conformance() {
    let mut d = Dummy::new();
    assert!(d.update());
    assert!(d.update());
    assert!(d.filter(ArticleList::All).is_empty());
    d.index_mut().upsert(article("x"));
    assert!(d.filter(ArticleList::All).is_empty());
    assert!(d.filter(ArticleList::Starred).is_empty());
    assert!(d.save_index().is_none());
}

#[test]
fn second_update_returns_false_until_finished() {
    let mut r = Remote::new();
    assert!(r.update());
    assert!(!r.update());
    assert!(!r.update());
    r.finish_update();
    assert!(r.update());
}

#[test]
fn update_while_running_leaves_index_alone() {
    let mut r = Remote::new();
    r.index_mut().upsert(article("a"));
    assert!(r.update());
    assert!(!r.update());
    assert_eq!(r.index().len(), 1);
}

#[test]
fn apply_fetch_merges() {
    let mut r = Remote::new();
    let mut starred_local = article("keep");
    starred_local.starred = true;
    starred_local.changed.record(Changes::Starred);
    let mut gone_pending_delete = article("gone_but_deleting");
    gone_pending_delete.changed.record(Changes::Deleted);
    let gone_plain = article("gone_plain");
    r.index_mut().upsert(starred_local);
    r.index_mut().upsert(gone_pending_delete);
    r.index_mut().upsert(gone_plain);
    assert!(r.update());
    // The remote still knows "keep" (unstarred there) and adds "new".
    let mut remote_keep = article("keep");
    remote_keep.starred = false;
    remote_keep.title = "fresh title".to_string();
    let fetched = vec![remote_keep, article("new")];
    r.apply_fetch(&fetched);
    r.finish_update();

    let idx = r.index();
    assert_eq!(idx.len(), 3);
    let kept = idx.get("keep").expect("known id stays");
    // Local pending star wins over the stale remote value...
    assert!(kept.starred);
    assert!(kept.changed.contains(Changes::Starred));
    // ...while non-pending fields are refreshed from the remote.
    assert_eq!(kept.title, "fresh title");
    assert!(idx.get("new").is_some());
    assert!(idx.get("gone_but_deleting").is_some());
    assert!(idx.get("gone_plain").is_none());
}

#[test]
fn confirm_push_clears_single_flag() {
    let mut r = Remote::new();
    let mut a = article("a");
    a.changed.record(Changes::Starred);
    a.changed.record(Changes::Archived);
    r.index_mut().upsert(a);
    assert!(r.confirm_push("a", Changes::Starred));
    let got = r.index().get("a").expect("still there");
    assert!(!got.changed.contains(Changes::Starred));
    assert!(got.changed.contains(Changes::Archived));
    assert!(!r.confirm_push("missing", Changes::Starred));
}

#[test]
fn loader_selects_exactly_one_variant() {
    let wb = load(&ArticleAuth { api: "wallabag".to_string() });
    assert!(matches!(wb, Backend::Remote(_)));
    let other = load(&ArticleAuth { api: "pocket".to_string() });
    assert!(matches!(other, Backend::Dummy(_)));
    let empty = load(&ArticleAuth { api: "".to_string() });
    assert!(matches!(empty, Backend::Dummy(_)));
}

#[test]
fn backend_delegates() {
    let mut b = load(&ArticleAuth { api: "wallabag".to_string() });
    b.index_mut().upsert(article("z"));
    assert_eq!(b.filter(ArticleList::All).len(), 1);
    assert!(b.save_index().is_some());
    assert!(b.update());
    assert!(!b.update());
}

#[test]
fn star_example_scenario() {
    // An index holds {id: "42", starred: false, changed: {}}.
    let mut r = Remote::new();
    r.index_mut().upsert(article("42"));
    // The user stars it locally.
    assert!(r.index_mut().set_starred("42", true));
    {
        let a = r.index().get("42").unwrap();
        assert!(a.starred);
        assert!(a.changed.contains(Changes::Starred));
        assert!(!a.changed.contains(Changes::Archived));
        assert!(!a.changed.contains(Changes::Deleted));
    }
    // An update runs and the remote confirms the star.
    assert!(r.update());
    assert!(r.confirm_push("42", Changes::Starred));
    r.finish_update();
    let a = r.index().get("42").unwrap();
    assert!(a.starred);
    assert!(a.changed.empty());
    // The persisted index shows starred: true and no changed field.
    let text = r.save_index().expect("remote persists");
    assert!(text.contains("\"starred\":true"));
    assert!(!text.contains("changed"));
}
