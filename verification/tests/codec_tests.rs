use articles::article::Article;
use articles::changes::{ChangeFlags, Changes};
use articles::codec::{encode_index, read_index};
use articles::index::ArticleIndex;
use articles::timestamp::Timestamp;

fn ts(year: u16, month: u8, day: u8, hour: u8, minute: u8, second: u8, off: i32) -> Timestamp {
    Timestamp { year, month, day, hour, minute, second, offset_minutes: off }
}

fn article(id: &str, starred: bool, archived: bool) -> Article {
    Article {
        id: id.to_string(),
        changed: ChangeFlags::none(),
        title: format!("title of {}", id),
        domain: "example.org".to_string(),
        authors: vec!["Ada".to_string(), "Bob".to_string()],
        format: "html".to_string(),
        language: "en".to_string(),
        reading_time: 7,
        added: ts(2024, 1, 2, 3, 4, 5, 120),
        starred,
        archived,
    }
}

#[test]
fn encode_exact_text() {
    let mut idx = ArticleIndex::new();
    let mut a = article("42", true, false);
    a.title = "T".to_string();
    a.domain = "d".to_string();
    idx.upsert(a);
    let text = encode_index(&idx);
    assert_eq!(
        text,
        "{\"articles\":{\"42\":{\"id\":\"42\",\"title\":\"T\",\"domain\":\"d\",\
         \"authors\":[\"Ada\",\"Bob\"],\"format\":\"html\",\"language\":\"en\",\
         \"reading_time\":7,\"added\":\"2024-01-02T03:04:05+02:00\",\
         \"starred\":true,\"archived\":false}}}"
    );
}

#[test]
fn encode_empty_index() {
    let idx = ArticleIndex::new();
    assert_eq!(encode_index(&idx), "{\"articles\":{}}");
}

#[test]
fn round_trip_identical() {
    let mut idx = ArticleIndex::new();
    let mut a = article("a1", true, false);
    a.changed.record(Changes::Starred);
    a.changed.record(Changes::Deleted);
    idx.upsert(a);
    idx.upsert(article("b2", false, true));
    let mut c = article("c3", false, false);
    c.added = ts(1999, 12, 31, 23, 59, 59, -330);
    c.reading_time = 0;
    c.authors = Vec::new();
    idx.upsert(c);
    let text = encode_index(&idx);
    let back = read_index(&text).expect("round trip parses");
    assert_eq!(back.articles.len(), 3);
    for (orig, re) in idx.articles.iter().zip(back.articles.iter()) {
        assert_eq!(orig.id, re.id);
        assert_eq!(orig.changed, re.changed);
        assert_eq!(orig.title, re.title);
        assert_eq!(orig.domain, re.domain);
        assert_eq!(orig.authors, re.authors);
        assert_eq!(orig.format, re.format);
        assert_eq!(orig.language, re.language);
        assert_eq!(orig.reading_time, re.reading_time);
        assert_eq!(orig.added, re.added);
        assert_eq!(orig.starred, re.starred);
        assert_eq!(orig.archived, re.archived);
    }
}

#[test]
fn round_trip_escapes() {
    let mut idx = ArticleIndex::new();
    let mut a = article("we\"ird\\id", false, false);
    a.title = "a \"quoted\" \\ title".to_string();
    idx.upsert(a);
    let text = encode_index(&idx);
    let back = read_index(&text).expect("escaped strings parse");
    assert_eq!(back.articles[0].id, "we\"ird\\id");
    assert_eq!(back.articles[0].title, "a \"quoted\" \\ title");
}

#[test]
fn round_trip_changed_flags() {
    let mut idx = ArticleIndex::new();
    let mut a = article("x", false, false);
    a.changed.record(Changes::Archived);
    idx.upsert(a);
    let text = encode_index(&idx);
    assert!(text.contains("\"changed\":[\"archived\"]"));
    let back = read_index(&text).expect("changed parses");
    assert!(back.articles[0].changed.contains(Changes::Archived));
    assert!(!back.articles[0].changed.contains(Changes::Starred));
    assert!(!back.articles[0].changed.contains(Changes::Deleted));
}

#[test]
fn missing_index_is_load_error() {
    assert!(read_index("").is_err());
    assert!(read_index("{}").is_err());
    assert!(read_index("not json at all").is_err());
}

#[test]
fn truncated_text_is_load_error() {
    let mut idx = ArticleIndex::new();
    idx.upsert(article("42", false, false));
    let text = encode_index(&idx);
    let cut = &text[..text.len() - 2];
    assert!(read_index(cut).is_err());
}

#[test]
fn unsorted_keys_are_rejected() {
    let mut idx = ArticleIndex::new();
    idx.upsert(article("a", false, false));
    idx.upsert(article("b", false, false));
    let text = encode_index(&idx);
    let swapped = text
        .replace("\"a\":{\"id\":\"a\"", "\"zTMP\":{\"id\":\"zTMP\"")
        .replace("\"b\":{\"id\":\"b\"", "\"a\":{\"id\":\"a\"")
        .replace("\"zTMP\":{\"id\":\"zTMP\"", "\"b\":{\"id\":\"b\"");
    assert!(read_index(&swapped).is_err());
}

#[test]
fn key_must_match_id() {
    let mut idx = ArticleIndex::new();
    idx.upsert(article("k", false, false));
    let text = encode_index(&idx);
    let broken = text.replace("{\"k\":", "{\"q\":");
    assert!(read_index(&broken).is_err());
}

#[test]
fn reading_time_bounds() {
    let mut idx = ArticleIndex::new();
    let mut a = article("n", false, false);
    a.reading_time = u32::MAX;
    idx.upsert(a);
    let text = encode_index(&idx);
    let back = read_index(&text).expect("max reading time parses");
    assert_eq!(back.articles[0].reading_time, u32::MAX);
    let over = text.replace("4294967295", "4294967296");
    assert!(read_index(&over).is_err());
}

#[test]
fn negative_offset_round_trips() {
    let mut idx = ArticleIndex::new();
    let mut a = article("t", false, false);
    a.added = ts(2020, 6, 15, 12, 30, 0, -90);
    idx.upsert(a);
    let text = encode_index(&idx);
    assert!(text.contains("\"2020-06-15T12:30:00-01:30\""));
    let back = read_index(&text).expect("negative offset parses");
    assert_eq!(back.articles[0].added.offset_minutes, -90);
}
