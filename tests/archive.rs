use whynot::archive::{page_skip, Archive};
use whynot::codec::{
    decode_chrono_key, decode_tag_key, encode_be_seconds, encode_chrono_key, encode_tag_key,
    tag_key, ArchiveError,
};
use whynot::ingest::Item;
use whynot::paging::{next_offset, page_step, resolve_payload, PageStep};
use whynot::url::get_filename_from_url;

fn item(id: &str, time: &str, tags: &[&str]) -> Item {
    Item {
        id: id.to_string(),
        publish_time: time.to_string(),
        tags: tags.iter().map(|t| t.to_string()).collect(),
        payload: format!("payload of {id}").into_bytes(),
    }
}

fn payload(id: &str) -> Vec<u8> {
    format!("payload of {id}").into_bytes()
}

#[test]
fn scenario_global_and_tag_order() {
    let mut a = Archive::new();
    let items = vec![
        item("a", "2024-01-01T00:00:00Z", &["x"]),
        item("b", "2024-01-03T00:00:00Z", &[]),
        item("c", "2024-01-02T00:00:00Z", &["x"]),
    ];
    assert_eq!(a.ingest(&items), Ok(3));
    assert_eq!(a.list_global(0), vec![payload("b"), payload("c"), payload("a")]);
    assert_eq!(a.list_by_tag("x", 0), Ok(vec![payload("c"), payload("a")]));
    assert_eq!(a.list_by_tag("y", 0), Ok(vec![]));
}

#[test]
fn scenario_twenty_five_items_two_pages() {
    let mut a = Archive::new();
    let items: Vec<Item> = (1..=25)
        .map(|d| item(&format!("item{d}"), &format!("2024-02-{d:02}T12:00:00Z"), &["all"]))
        .collect();
    assert_eq!(a.ingest(&items), Ok(25));
    let first = a.list_global(0);
    let expected_first: Vec<Vec<u8>> = (6..=25).rev().map(|d| payload(&format!("item{d}"))).collect();
    assert_eq!(first, expected_first);
    let second = a.list_global(1);
    let expected_second: Vec<Vec<u8>> = (1..=5).rev().map(|d| payload(&format!("item{d}"))).collect();
    assert_eq!(second, expected_second);
    assert_eq!(a.list_global(2), Vec::<Vec<u8>>::new());
    assert_eq!(a.list_by_tag("all", 1), Ok(expected_second));
    assert_eq!(a.list_global(usize::MAX), Vec::<Vec<u8>>::new());
}

#[test]
fn scenario_reingest_is_noop() {
    let mut a = Archive::new();
    let items = vec![item("one", "2024-03-01T00:00:00Z", &["t1", "t2"])];
    assert_eq!(a.ingest(&items), Ok(1));
    let counts = (a.content_len(), a.chrono_len(), a.tag_index_len());
    assert_eq!(counts, (1, 1, 2));
    let before = a.get("one");
    assert_eq!(a.ingest(&items), Ok(0));
    assert_eq!((a.content_len(), a.chrono_len(), a.tag_index_len()), counts);
    assert_eq!(a.get("one"), before);
}

#[test]
fn reingest_of_a_set_writes_nothing() {
    let mut a = Archive::new();
    let items = vec![
        item("p", "2024-05-01T00:00:00Z", &["k"]),
        item("q", "2024-05-02T00:00:00Z", &["k", "m"]),
    ];
    assert_eq!(a.ingest(&items), Ok(2));
    assert_eq!(a.ingest(&items), Ok(0));
    assert_eq!((a.content_len(), a.chrono_len(), a.tag_index_len()), (2, 2, 3));
}

#[test]
fn separator_in_tag_is_rejected_before_any_write() {
    let mut a = Archive::new();
    let items = vec![
        item("good", "2024-01-01T00:00:00Z", &["fine"]),
        item("bad", "2024-01-02T00:00:00Z", &["a|b"]),
    ];
    assert_eq!(a.ingest(&items), Err(ArchiveError::InvalidTag));
    assert_eq!((a.content_len(), a.chrono_len(), a.tag_index_len()), (0, 0, 0));
    assert!(!a.contains("good"));
    assert_eq!(encode_tag_key("a|b", 0, "id"), Err(ArchiveError::InvalidTag));
    assert_eq!(a.list_by_tag("a|b", 0), Err(ArchiveError::InvalidTag));
}

#[test]
fn nul_in_tag_is_rejected() {
    assert_eq!(encode_tag_key("a\0b", 0, "id"), Err(ArchiveError::InvalidTag));
}

#[test]
fn malformed_timestamp_aborts_the_call() {
    let mut a = Archive::new();
    let items = vec![
        item("ok", "2024-01-01T00:00:00Z", &[]),
        item("broken", "not a date", &[]),
    ];
    assert_eq!(a.ingest(&items), Err(ArchiveError::MalformedTimestamp));
    assert_eq!(a.content_len(), 0);
}

#[test]
fn duplicate_in_one_call_is_written_once() {
    let mut a = Archive::new();
    let items = vec![
        item("d", "2024-01-01T00:00:00Z", &["x"]),
        item("d", "2024-01-05T00:00:00Z", &["x"]),
    ];
    assert_eq!(a.ingest(&items), Ok(1));
    assert_eq!((a.content_len(), a.chrono_len(), a.tag_index_len()), (1, 1, 1));
}

#[test]
fn already_held_item_is_skipped_even_with_bad_time() {
    let mut a = Archive::new();
    assert_eq!(a.ingest(&vec![item("h", "2024-01-01T00:00:00Z", &[])]), Ok(1));
    assert_eq!(a.ingest(&vec![item("h", "garbage", &[])]), Ok(0));
}

#[test]
fn get_and_contains() {
    let mut a = Archive::new();
    assert_eq!(a.ingest(&vec![item("g", "2024-01-01T00:00:00Z", &[])]), Ok(1));
    assert!(a.contains("g"));
    assert!(!a.contains("h"));
    assert_eq!(a.get("g"), Some(payload("g")));
    assert_eq!(a.get("h"), None);
}

#[test]
fn be_seconds_exact() {
    assert_eq!(encode_be_seconds(1), vec![0, 0, 0, 0, 0, 0, 0, 1]);
    assert_eq!(encode_be_seconds(0x0102030405060708), vec![1, 2, 3, 4, 5, 6, 7, 8]);
    assert_eq!(encode_be_seconds(-1), vec![255; 8]);
    assert_eq!(encode_be_seconds(1704067200), 1704067200i64.to_be_bytes().to_vec());
    assert_eq!(encode_be_seconds(i64::MIN), i64::MIN.to_be_bytes().to_vec());
}

#[test]
fn chrono_key_round_trip() {
    let key = encode_chrono_key(1704067200, "wainao-reads/2024/01/01/story");
    assert_eq!(key.len(), 8 + 29);
    assert_eq!(&key[..8], &1704067200i64.to_be_bytes());
    assert_eq!(decode_chrono_key(&key), Ok(b"wainao-reads/2024/01/01/story".to_vec()));
    assert_eq!(decode_chrono_key(&encode_chrono_key(-5, "")), Ok(vec![]));
}

#[test]
fn short_keys_are_malformed() {
    assert_eq!(decode_chrono_key(&[1, 2, 3]), Err(ArchiveError::MalformedKey));
    assert_eq!(decode_tag_key(&[1, 2, 3, 4, 5, 6, 7, 8, 9], 1), Err(ArchiveError::MalformedKey));
}

#[test]
fn earlier_time_sorts_first() {
    let a = encode_chrono_key(100, "zzz");
    let b = encode_chrono_key(101, "aaa");
    assert!(a < b);
    let c = encode_chrono_key(1704067200, "b");
    let d = encode_chrono_key(1704240000, "a");
    assert!(c < d);
}

#[test]
fn tag_key_layout() {
    let key = tag_key("tags/x", "story", "2024-01-01T00:00:00Z").unwrap();
    let mut expected = b"tags/x|".to_vec();
    expected.extend_from_slice(&1704067200i64.to_be_bytes());
    expected.extend_from_slice(b"story");
    assert_eq!(key, expected);
    assert_eq!(decode_tag_key(&key, 6), Ok(b"story".to_vec()));
    assert_eq!(tag_key("tags/x", "story", "yesterday"), Err(ArchiveError::MalformedTimestamp));
    assert_eq!(
        tag_key("ta|g", "story", "2024-01-01T00:00:00Z"),
        Err(ArchiveError::InvalidTag)
    );
}

#[test]
fn filename_from_url() {
    assert_eq!(
        get_filename_from_url("https://cdn.example.com/radiofreeasia/ABC.jpg?auth=1&w=2"),
        "ABC.jpg"
    );
    assert_eq!(get_filename_from_url("https://cdn.example.com/x/y.png"), "y.png");
    assert_eq!(get_filename_from_url("plain"), "plain");
    assert_eq!(get_filename_from_url("dir/"), "");
    assert_eq!(get_filename_from_url("a/b?c/d"), "d");
}

#[test]
fn tag_listing_keeps_tags_apart() {
    let mut a = Archive::new();
    let items = vec![
        item("n1", "2024-04-01T00:00:00Z", &["news", "news/asia"]),
        item("n2", "2024-04-03T00:00:00Z", &["news/asia"]),
        item("n3", "2024-04-02T00:00:00Z", &["news"]),
        item("n4", "2024-04-04T00:00:00Z", &["newsroom"]),
    ];
    assert_eq!(a.ingest(&items), Ok(4));
    assert_eq!(a.list_by_tag("news", 0), Ok(vec![payload("n3"), payload("n1")]));
    assert_eq!(a.list_by_tag("news/asia", 0), Ok(vec![payload("n2"), payload("n1")]));
    assert_eq!(a.list_by_tag("newsroom", 0), Ok(vec![payload("n4")]));
    assert_eq!(a.list_by_tag("new", 0), Ok(vec![]));
    assert_eq!(a.tag_index_len(), 5);
}

#[test]
fn same_second_orders_by_id() {
    let mut a = Archive::new();
    let items = vec![
        item("m", "2024-06-01T00:00:00Z", &[]),
        item("k", "2024-06-01T00:00:00Z", &[]),
        item("z", "2024-06-01T00:00:00Z", &[]),
    ];
    assert_eq!(a.ingest(&items), Ok(3));
    assert_eq!(a.list_global(0), vec![payload("z"), payload("m"), payload("k")]);
}

#[test]
fn offsets_in_publish_time_are_applied() {
    let mut a = Archive::new();
    let items = vec![
        item("east", "2024-01-01T08:00:00+08:00", &[]),
        item("west", "2024-01-01T00:00:01Z", &[]),
    ];
    assert_eq!(a.ingest(&items), Ok(2));
    assert_eq!(a.list_global(0), vec![payload("west"), payload("east")]);
}

#[test]
fn page_skip_values() {
    assert_eq!(page_skip(0), Some(0));
    assert_eq!(page_skip(3), Some(60));
    assert_eq!(page_skip(usize::MAX), None);
}

#[test]
fn repeated_id_with_separator_tag_fails_the_call() {
    let mut a = Archive::new();
    let items = vec![
        item("r", "2024-01-01T00:00:00Z", &["ok"]),
        item("r", "2024-01-01T00:00:00Z", &["a|b"]),
    ];
    assert_eq!(a.ingest(&items), Err(ArchiveError::InvalidTag));
    assert_eq!((a.content_len(), a.chrono_len(), a.tag_index_len()), (0, 0, 0));
}

#[test]
fn repeated_id_with_bad_time_fails_the_call() {
    let mut a = Archive::new();
    let items = vec![
        item("r", "2024-01-01T00:00:00Z", &[]),
        item("r", "not a time", &[]),
    ];
    assert_eq!(a.ingest(&items), Err(ArchiveError::MalformedTimestamp));
    assert_eq!(a.content_len(), 0);
}

#[test]
fn separator_tag_wins_over_bad_time() {
    let mut a = Archive::new();
    assert_eq!(a.ingest(&vec![item("s", "never", &["x|y"])]), Err(ArchiveError::InvalidTag));
    assert_eq!(tag_key("x|y", "s", "never"), Err(ArchiveError::InvalidTag));
}

#[test]
fn page_steps() {
    assert_eq!(page_step(0, 0), PageStep::Take);
    assert_eq!(page_step(19, 0), PageStep::Take);
    assert_eq!(page_step(20, 0), PageStep::Stop);
    assert_eq!(page_step(19, 1), PageStep::Skip);
    assert_eq!(page_step(20, 1), PageStep::Take);
    assert_eq!(page_step(39, 1), PageStep::Take);
    assert_eq!(page_step(40, 1), PageStep::Stop);
    assert_eq!(page_step(usize::MAX, usize::MAX), PageStep::Skip);
}

#[test]
fn missing_payload_is_a_consistency_violation() {
    assert_eq!(resolve_payload(None), Err(ArchiveError::ConsistencyViolation));
    assert_eq!(resolve_payload(Some(vec![1, 2])), Ok(vec![1, 2]));
}

#[test]
fn feed_offsets() {
    assert_eq!(next_offset(0, 100, 250), Some(100));
    assert_eq!(next_offset(200, 50, 250), None);
    assert_eq!(next_offset(100, 0, 250), None);
    assert_eq!(next_offset(0, 10, 5), None);
    assert_eq!(next_offset(usize::MAX - 1, 5, usize::MAX), None);
}
