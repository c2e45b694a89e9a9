use memvid::codec::encode_record;
use memvid::log::{encode_commit_record, encode_frame_record, file_header};
use memvid::query::{SearchRequest, TimelineEntry, TimelineQuery};
use memvid::rank::Cursor;
use memvid::store::{PutOptions, Store, StoreError};

fn b(s: &str) -> Vec<u8> {
    s.as_bytes().to_vec()
}

fn no_opts() -> PutOptions {
    PutOptions { uri: None, title: None, tags: vec![] }
}

fn with_uri(uri: &str) -> PutOptions {
    PutOptions { uri: Some(b(uri)), title: None, tags: vec![] }
}

/// A new store file: header, the record that enables the lexical index, and
/// a commit.
fn create_file(now: i64) -> Vec<u8> {
    let mut file = file_header();
    let (mut store, _) = Store::open_log(&file).unwrap();
    file.extend(store.enable_lex_logged());
    file.extend(encode_commit_record(now));
    file
}

/// Opens the file, stores one frame, and appends its records.
fn put_file(file: &mut Vec<u8>, content: &str, opts: PutOptions, now: i64) -> Result<u64, StoreError> {
    if file.is_empty() {
        *file = file_header();
    }
    let (mut store, _) = Store::open_log(file)?;
    let lex = store.enable_lex_logged();
    let (id, bytes) = store.put_committed(b(content), opts, now)?;
    file.extend(lex);
    file.extend(bytes);
    Ok(id)
}

fn open(file: &Vec<u8>) -> Store {
    Store::open_log(file).unwrap().0
}

fn request(query: &str, top_k: usize) -> SearchRequest {
    SearchRequest {
        query: b(query),
        top_k,
        snippet_chars: 200,
        uri: None,
        scope: None,
        cursor: None,
        as_of_frame: None,
        as_of_ts: None,
        no_sketch: false,
    }
}

fn timeline(limit: u64, reverse: bool) -> TimelineQuery {
    TimelineQuery { limit, since: None, until: None, reverse }
}

fn ids(entries: &[TimelineEntry]) -> Vec<u64> {
    entries.iter().map(|e| e.frame_id).collect()
}

#[test]
fn test_create_new_file() {
    let file = create_file(100);
    let store = open(&file);
    let stats = store.stats();
    assert_eq!(stats.frame_count, 0);
    assert!(stats.has_lex_index);
    assert!(file.len() > 4);
}

#[test]
fn test_create_fails_if_exists() {
    assert!(Store::create(false).is_ok());
    let result = Store::create(true);
    assert!(result.is_err());
    let err = result.err().unwrap();
    assert_eq!(err, StoreError::AlreadyExists);
    assert!(err.message().contains("already exists"));
}

#[test]
fn test_put_creates_file_if_not_exists() {
    let mut file: Vec<u8> = Vec::new();
    let opts = PutOptions {
        uri: Some(b("mv2://test/uri")),
        title: Some(b("Test Title")),
        tags: vec![b("tag1"), b("tag2")],
    };
    let result = put_file(&mut file, "Test content", opts, 10);
    assert!(result.is_ok());
    assert!(!file.is_empty());
    let frame_id = result.unwrap();
    assert!(frame_id > 0);
    let store = open(&file);
    let f = &store.frames()[0];
    assert_eq!(f.uri, Some(b("mv2://test/uri")));
    assert_eq!(f.title, Some(b("Test Title")));
    assert_eq!(f.tags, vec![b("tag1"), b("tag2")]);
    assert_eq!(f.payload, b("Test content"));
}

#[test]
fn test_put_appends_to_existing_file() {
    let mut file: Vec<u8> = Vec::new();
    put_file(&mut file, "First content", no_opts(), 10).unwrap();
    let result = put_file(&mut file, "Second content", no_opts(), 11);
    assert!(result.is_ok());
    assert!(result.unwrap() > 1);
}

#[test]
fn test_put_rejects_empty_content() {
    let mut file: Vec<u8> = Vec::new();
    let result = put_file(&mut file, "   ", no_opts(), 10);
    assert!(result.is_err());
    assert!(result.err().unwrap().message().contains("empty"));
}

#[test]
fn test_search_finds_content() {
    let mut file: Vec<u8> = Vec::new();
    let opts = PutOptions {
        uri: Some(b("mv2://topics/rust")),
        title: Some(b("Rust Language")),
        tags: vec![b("programming")],
    };
    put_file(&mut file, "Rust is a systems programming language", opts, 10).unwrap();
    let store = open(&file);
    let result = store.search(&request("systems programming", 10));
    assert!(result.is_ok());
    let out = result.unwrap();
    assert!(out.total_hits > 0);
    assert!(!out.hits.is_empty());
    assert_eq!(out.hits[0].uri, Some(b("mv2://topics/rust")));
}

#[test]
fn test_search_with_scope_filter() {
    let mut file: Vec<u8> = Vec::new();
    put_file(&mut file, "Rust programming", with_uri("mv2://topics/rust"), 1).unwrap();
    put_file(&mut file, "Python programming", with_uri("mv2://topics/python"), 2).unwrap();
    put_file(&mut file, "My project uses Rust", with_uri("mv2://projects/myapp"), 3).unwrap();
    let store = open(&file);
    let mut req = request("programming", 10);
    req.scope = Some(b("mv2://topics/"));
    let result = store.search(&req);
    assert!(result.is_ok());
    let out = result.unwrap();
    for hit in &out.hits {
        assert!(hit.uri.as_ref().unwrap().starts_with(b"mv2://topics/"));
    }
    assert_eq!(out.total_hits, 2);
}

#[test]
fn test_search_returns_empty_for_no_match() {
    let mut file: Vec<u8> = Vec::new();
    put_file(&mut file, "Hello world", no_opts(), 1).unwrap();
    let store = open(&file);
    let result = store.search(&request("nonexistent query xyz123", 10));
    assert!(result.is_ok());
    let out = result.unwrap();
    assert_eq!(out.total_hits, 0);
    assert!(out.hits.is_empty());
}

#[test]
fn test_timeline_returns_entries() {
    let mut file: Vec<u8> = Vec::new();
    put_file(&mut file, "First entry", no_opts(), 1).unwrap();
    put_file(&mut file, "Second entry", no_opts(), 2).unwrap();
    put_file(&mut file, "Third entry", no_opts(), 3).unwrap();
    let store = open(&file);
    let result = store.timeline(&timeline(10, true));
    assert!(result.is_ok());
    let entries = result.unwrap();
    assert_eq!(entries.len(), 3);
    assert_eq!(ids(&entries), vec![3, 2, 1]);
}

#[test]
fn test_timeline_respects_limit() {
    let mut file: Vec<u8> = Vec::new();
    for i in 1..=5 {
        put_file(&mut file, &format!("Entry {}", i), no_opts(), i).unwrap();
    }
    let store = open(&file);
    let result = store.timeline(&timeline(2, true));
    assert!(result.is_ok());
    assert_eq!(result.unwrap().len(), 2);
}

#[test]
fn test_stats_returns_correct_counts() {
    let mut file = create_file(1);
    put_file(&mut file, "Entry 1", no_opts(), 2).unwrap();
    put_file(&mut file, "Entry 2", no_opts(), 3).unwrap();
    let stats = open(&file).stats();
    assert!(stats.frame_count >= 2);
    assert!(stats.has_lex_index);
    assert!(!stats.has_vec_index);
    assert!(stats.size_bytes > 0);
    assert_eq!(stats.size_bytes, 14);
    assert_eq!(stats.active_frame_count, 2);
}

#[test]
fn test_stats_fails_for_nonexistent_file() {
    let missing: Vec<u8> = Vec::new();
    assert_eq!(Store::open_log(&missing).err(), Some(StoreError::Corruption));
}

#[test]
fn search_scenario_single_hit() {
    let mut file = create_file(1);
    put_file(
        &mut file,
        "Rust is a systems programming language",
        with_uri("mv2://topics/rust"),
        2,
    )
    .unwrap();
    let out = open(&file).search(&request("systems programming", 10)).unwrap();
    assert_eq!(out.total_hits, 1);
    assert_eq!(out.hits.len(), 1);
    assert_eq!(out.hits[0].uri, Some(b("mv2://topics/rust")));
    assert_eq!(out.hits[0].score, 2);
    assert_eq!(out.hits[0].frame_id, 1);
    assert_eq!(out.next_cursor, None);
}

#[test]
fn timeline_scenario_two_most_recent() {
    let mut file: Vec<u8> = Vec::new();
    put_file(&mut file, "one", no_opts(), 100).unwrap();
    put_file(&mut file, "two", no_opts(), 200).unwrap();
    put_file(&mut file, "three", no_opts(), 300).unwrap();
    let entries = open(&file).timeline(&timeline(2, true)).unwrap();
    assert_eq!(entries.len(), 2);
    assert_eq!(ids(&entries), vec![3, 2]);
    assert_eq!(entries[0].timestamp, 300);
    assert_eq!(entries[1].timestamp, 200);
    assert_eq!(entries[0].preview, b("three"));
}

#[test]
fn timeline_forward_is_oldest_first() {
    let mut file: Vec<u8> = Vec::new();
    put_file(&mut file, "one", no_opts(), 100).unwrap();
    put_file(&mut file, "two", no_opts(), 200).unwrap();
    put_file(&mut file, "three", no_opts(), 300).unwrap();
    let store = open(&file);
    let entries = store.timeline(&timeline(10, false)).unwrap();
    assert_eq!(ids(&entries), vec![1, 2, 3]);
    let window = TimelineQuery { limit: 10, since: Some(150), until: Some(300), reverse: false };
    assert_eq!(ids(&store.timeline(&window).unwrap()), vec![2, 3]);
    assert_eq!(store.timeline(&timeline(0, true)).err(), Some(StoreError::InvalidInput));
}

#[test]
fn timestamps_never_go_back() {
    let mut store = Store::create(false).unwrap();
    store.put(b("late"), no_opts()).unwrap();
    store.commit(500);
    store.put(b("early clock"), no_opts()).unwrap();
    store.commit(400);
    assert_eq!(store.frames()[1].timestamp, 500);
}

#[test]
fn stats_scenario_lex_without_frames() {
    let file = create_file(1);
    let stats = open(&file).stats();
    assert_eq!(stats.frame_count, 0);
    assert!(stats.has_lex_index);
    assert!(!stats.has_vec_index);
}

#[test]
fn create_on_existing_leaves_bytes() {
    let file = create_file(1);
    let before = file.clone();
    assert_eq!(Store::create(true).err(), Some(StoreError::AlreadyExists));
    assert_eq!(file, before);
}

#[test]
fn frame_ids_are_consecutive_across_reopen() {
    let mut file: Vec<u8> = Vec::new();
    let mut got = Vec::new();
    for i in 0..4 {
        got.push(put_file(&mut file, "content", no_opts(), i).unwrap());
    }
    assert_eq!(got, vec![1, 2, 3, 4]);
    let mut store = open(&file);
    store.put(b("a"), no_opts()).unwrap();
    store.put(b("b"), no_opts()).unwrap();
    assert_eq!(store.commit(9), vec![5, 6]);
}

#[test]
fn torn_commit_is_dropped_on_reopen() {
    let mut file: Vec<u8> = Vec::new();
    put_file(&mut file, "kept", no_opts(), 1).unwrap();
    let before = open(&file).stats().frame_count;
    let mut torn = file.clone();
    put_file(&mut torn, "lost", no_opts(), 2).unwrap();
    let full = torn.len();
    for cut in file.len()..full {
        let (store, rec) = Store::open_log(&torn[..cut].to_vec()).unwrap();
        assert_eq!(store.stats().frame_count, before);
        assert_eq!(rec.applied, rec.committed);
    }
    assert_eq!(open(&torn).stats().frame_count, before + 1);
}

#[test]
fn unfinished_transaction_is_reported() {
    let mut file: Vec<u8> = Vec::new();
    put_file(&mut file, "kept", no_opts(), 1).unwrap();
    file.extend(encode_frame_record(&b("staged only"), &no_opts()).unwrap());
    let (store, rec) = Store::open_log(&file).unwrap();
    assert_eq!(rec.dropped, 1);
    assert_eq!(store.stats().frame_count, 1);
}

#[test]
fn corrupt_byte_truncates_the_log() {
    let mut file: Vec<u8> = Vec::new();
    put_file(&mut file, "first", no_opts(), 1).unwrap();
    let good = file.len();
    put_file(&mut file, "second", no_opts(), 2).unwrap();
    file[good + 7] ^= 0x55;
    let store = open(&file);
    assert_eq!(store.stats().frame_count, 1);
    let mut bad_header = file.clone();
    bad_header[0] = 0;
    assert_eq!(Store::open_log(&bad_header).err(), Some(StoreError::Corruption));
}

#[test]
fn cursor_pages_match_single_pass() {
    let mut file: Vec<u8> = Vec::new();
    let texts = ["rust", "rust rust", "rust", "rust rust rust", "go", "rust"];
    for (i, t) in texts.iter().enumerate() {
        put_file(&mut file, t, no_opts(), i as i64).unwrap();
    }
    let store = open(&file);
    let all = store.search(&request("rust", 100)).unwrap();
    let all_ids: Vec<u64> = all.hits.iter().map(|h| h.frame_id).collect();
    assert_eq!(all_ids, vec![4, 2, 6, 3, 1]);
    let mut paged = Vec::new();
    let mut req = request("rust", 2);
    loop {
        let page = store.search(&req).unwrap();
        assert!(page.hits.len() <= 2);
        assert!(page.total_hits >= page.hits.len());
        paged.extend(page.hits.iter().map(|h| h.frame_id));
        match page.next_cursor {
            Some(c) => req.cursor = Some(c),
            None => break,
        }
    }
    assert_eq!(paged, all_ids);
    req.cursor = Some(Cursor { score: 1, frame_id: 3, as_of_frame: None });
    let rest: Vec<u64> = store.search(&req).unwrap().hits.iter().map(|h| h.frame_id).collect();
    assert_eq!(rest, vec![1]);
}

#[test]
fn as_of_frame_hides_later_frames() {
    let mut file: Vec<u8> = Vec::new();
    for i in 0..4 {
        put_file(&mut file, "memory", no_opts(), i).unwrap();
    }
    let store = open(&file);
    let mut req = request("memory", 10);
    req.as_of_frame = Some(2);
    let out = store.search(&req).unwrap();
    assert!(out.hits.iter().all(|h| h.frame_id <= 2));
    assert_eq!(out.total_hits, 2);
    req.as_of_frame = Some(0);
    let out = store.search(&req).unwrap();
    assert!(out.hits.is_empty());
    assert_eq!(out.total_hits, 0);
    req.as_of_frame = None;
    req.as_of_ts = Some(1);
    assert_eq!(store.search(&req).unwrap().total_hits, 2);
}

#[test]
fn exact_uri_and_inactive_frames() {
    let mut file: Vec<u8> = Vec::new();
    put_file(&mut file, "alpha", with_uri("mv2://a"), 1).unwrap();
    put_file(&mut file, "alpha", with_uri("mv2://ab"), 2).unwrap();
    let mut store = open(&file);
    let mut req = request("ALPHA", 10);
    req.uri = Some(b("mv2://a"));
    let out = store.search(&req).unwrap();
    assert_eq!(out.hits.len(), 1);
    assert_eq!(out.hits[0].frame_id, 1);
    req.uri = None;
    req.scope = Some(b("mv2://a"));
    assert_eq!(store.search(&req).unwrap().total_hits, 2);
    store.set_active(1, false).unwrap();
    assert_eq!(store.search(&req).unwrap().total_hits, 1);
    let stats = store.stats();
    assert_eq!(stats.frame_count, 2);
    assert_eq!(stats.active_frame_count, 1);
    assert_eq!(store.set_active(3, false), Err(StoreError::NotFound));
    assert_eq!(store.set_active(0, true), Err(StoreError::NotFound));
}

#[test]
fn search_errors() {
    let mut store = Store::create(false).unwrap();
    store.put(b("text"), no_opts()).unwrap();
    store.commit(1);
    assert_eq!(store.search(&request("text", 10)).err(), Some(StoreError::IndexUnavailable));
    store.enable_lex();
    assert_eq!(store.search(&request("text", 0)).err(), Some(StoreError::InvalidInput));
    assert_eq!(store.search(&request("text", 1)).unwrap().total_hits, 1);
}

#[test]
fn title_terms_are_searched() {
    let mut store = Store::create(false).unwrap();
    store.enable_lex();
    let opts = PutOptions { uri: None, title: Some(b("Gardening")), tags: vec![] };
    store.put(b("tomatoes and basil"), opts).unwrap();
    store.commit(1);
    let out = store.search(&request("gardening", 10)).unwrap();
    assert_eq!(out.total_hits, 1);
    assert_eq!(out.hits[0].title, Some(b("Gardening")));
    assert_eq!(out.hits[0].snippet, b("tomatoes and basil"));
}

#[test]
fn snippet_is_centred_and_clipped() {
    let mut store = Store::create(false).unwrap();
    store.enable_lex();
    store.put(b("aaaa bbbb cccc target dddd eeee"), no_opts()).unwrap();
    store.commit(1);
    let mut req = request("target", 10);
    req.snippet_chars = 10;
    let out = store.search(&req).unwrap();
    assert_eq!(out.hits[0].snippet, b("cccc targe"));
    req.snippet_chars = 1000;
    let out = store.search(&req).unwrap();
    assert_eq!(out.hits[0].snippet, b("aaaa bbbb cccc target dddd eeee"));
}

#[test]
fn put_validation() {
    let mut store = Store::create(false).unwrap();
    assert_eq!(store.put(b(" \n\t"), no_opts()), Err(StoreError::InvalidInput));
    assert_eq!(store.put(b("x"), with_uri("bad uri")), Err(StoreError::InvalidInput));
    assert_eq!(store.put(b("x"), with_uri("")), Err(StoreError::InvalidInput));
    assert_eq!(store.put(b("x"), with_uri("mv2://ok")), Ok(1));
    assert_eq!(store.put(b("y"), no_opts()), Ok(2));
    assert_eq!(store.pending_count(), 2);
    store.rollback();
    assert_eq!(store.pending_count(), 0);
    assert_eq!(store.stats().frame_count, 0);
}

#[test]
fn enable_lex_is_idempotent() {
    let mut store = Store::create(false).unwrap();
    assert!(!store.enable_lex_logged().is_empty());
    assert!(store.enable_lex_logged().is_empty());
    assert!(store.stats().has_lex_index);
}

#[test]
fn point_lookup() {
    let mut store = Store::create(false).unwrap();
    store.put(b("first"), no_opts()).unwrap();
    store.put(b("second"), no_opts()).unwrap();
    store.commit(7);
    let f = store.get_frame(2).unwrap();
    assert_eq!(f.frame_id, 2);
    assert_eq!(f.payload, b("second"));
    assert_eq!(f.timestamp, 7);
    assert!(f.active);
    assert_eq!(store.get_frame(0).err(), Some(StoreError::NotFound));
    assert_eq!(store.get_frame(3).err(), Some(StoreError::NotFound));
}

#[test]
fn rare_terms_weigh_more() {
    let mut store = Store::create(false).unwrap();
    store.enable_lex();
    for t in ["apple apple", "apple", "apple", "kiwi"] {
        store.put(b(t), no_opts()).unwrap();
    }
    store.commit(1);
    let out = store.search(&request("apple kiwi", 10)).unwrap();
    let ranked: Vec<(u64, u64)> = out.hits.iter().map(|h| (h.frame_id, h.score)).collect();
    assert_eq!(ranked, vec![(4, 2), (1, 2), (3, 1), (2, 1)]);
}

/// Cuts the file back to where its committed records end, as a writer does
/// before it appends.
fn cut_to_committed(file: &mut Vec<u8>) {
    let (_, rec) = Store::open_log(file).unwrap();
    file.truncate(rec.end);
}

#[test]
fn recovery_end_marks_committed_prefix() {
    let mut file: Vec<u8> = Vec::new();
    put_file(&mut file, "kept", no_opts(), 1).unwrap();
    let committed_len = file.len();
    assert_eq!(Store::open_log(&file).unwrap().1.end, committed_len);
    file.extend(encode_frame_record(&b("stale"), &no_opts()).unwrap());
    file.extend([1u8, 2, 3]);
    let (_, rec) = Store::open_log(&file).unwrap();
    assert_eq!(rec.end, committed_len);
    assert_eq!(rec.dropped, 1);
}

#[test]
fn put_after_unfinished_transaction_gets_promised_id() {
    let mut file: Vec<u8> = Vec::new();
    put_file(&mut file, "kept", no_opts(), 1).unwrap();
    file.extend(encode_frame_record(&b("stale"), &no_opts()).unwrap());
    cut_to_committed(&mut file);
    let id = put_file(&mut file, "fresh", no_opts(), 2).unwrap();
    assert_eq!(id, 2);
    let store = open(&file);
    assert_eq!(store.stats().frame_count, 2);
    assert_eq!(store.get_frame(2).unwrap().payload, b("fresh"));
}

#[test]
fn commit_after_torn_tail_survives_reopen() {
    let mut file: Vec<u8> = Vec::new();
    put_file(&mut file, "kept", no_opts(), 1).unwrap();
    let mut torn = file.clone();
    put_file(&mut torn, "lost", no_opts(), 2).unwrap();
    torn.truncate(torn.len() - 3);
    cut_to_committed(&mut torn);
    assert_eq!(torn, file);
    put_file(&mut torn, "later", no_opts(), 3).unwrap();
    let store = open(&torn);
    assert_eq!(store.stats().frame_count, 2);
    assert_eq!(store.get_frame(2).unwrap().payload, b("later"));
}

#[test]
fn reopened_store_keeps_frames_and_index() {
    let mut file = create_file(5);
    let (store, rec) = Store::open_log(&file).unwrap();
    assert_eq!(rec.applied, rec.committed);
    assert_eq!(store.stats().frame_count, 0);
    assert!(store.stats().has_lex_index);
    put_file(&mut file, "alpha", with_uri("mv2://a"), 7).unwrap();
    put_file(&mut file, "beta", no_opts(), 6).unwrap();
    let store = open(&file);
    let f1 = store.get_frame(1).unwrap();
    let f2 = store.get_frame(2).unwrap();
    assert_eq!((f1.timestamp, f2.timestamp), (7, 7));
    assert_eq!(f1.uri, Some(b("mv2://a")));
    assert_eq!(f2.payload, b("beta"));
    assert!(store.search(&request("beta", 5)).unwrap().total_hits == 1);
}

#[test]
fn snippet_never_cuts_a_character() {
    let mut store = Store::create(false).unwrap();
    store.enable_lex();
    store.put("éé target éé".as_bytes().to_vec(), no_opts()).unwrap();
    store.put("target éé".as_bytes().to_vec(), no_opts()).unwrap();
    store.commit(1);
    let mut req = request("target", 10);
    req.snippet_chars = 5;
    req.as_of_frame = Some(1);
    let out = store.search(&req).unwrap();
    assert_eq!(out.hits[0].snippet, b(" tar"));
    req.snippet_chars = 8;
    req.as_of_frame = None;
    req.uri = None;
    let out = store.search(&req).unwrap();
    let second = out.hits.iter().find(|h| h.frame_id == 2).unwrap();
    assert_eq!(second.snippet, b("target "));
}

#[test]
fn as_of_read_sees_frame_deactivated_later() {
    let mut store = Store::create(false).unwrap();
    store.enable_lex();
    store.put(b("history"), no_opts()).unwrap();
    store.put(b("history"), no_opts()).unwrap();
    store.commit(1);
    store.set_active(1, false).unwrap();
    store.put(b("history"), no_opts()).unwrap();
    store.commit(2);
    assert_eq!(store.get_frame(1).unwrap().deactivated_at, Some(2));
    let mut req = request("history", 10);
    assert_eq!(store.search(&req).unwrap().total_hits, 2);
    req.as_of_frame = Some(2);
    assert_eq!(store.search(&req).unwrap().total_hits, 2);
    req.as_of_frame = Some(3);
    let out = store.search(&req).unwrap();
    assert_eq!(out.total_hits, 2);
    assert!(out.hits.iter().all(|h| h.frame_id != 1));
    store.set_active(1, true).unwrap();
    assert_eq!(store.get_frame(1).unwrap().deactivated_at, None);
    assert_eq!(store.search(&request("history", 10)).unwrap().total_hits, 3);
}

#[test]
fn cursor_keeps_its_as_of_bound() {
    let mut store = Store::create(false).unwrap();
    store.enable_lex();
    for _ in 0..3 {
        store.put(b("word"), no_opts()).unwrap();
    }
    store.commit(1);
    let mut req = request("word", 1);
    req.as_of_frame = Some(2);
    let page = store.search(&req).unwrap();
    let c = page.next_cursor.unwrap();
    assert_eq!(c.as_of_frame, Some(2));
    req.cursor = Some(c);
    assert_eq!(store.search(&req).unwrap().hits[0].frame_id, 1);
    req.as_of_frame = None;
    assert_eq!(store.search(&req).err(), Some(StoreError::InvalidInput));
}

#[test]
fn unicode_white_space_is_blank() {
    let mut store = Store::create(false).unwrap();
    for blank in ["\u{a0}", "\u{85}", " \u{3000}\t", "\u{2000}\u{200a}\u{2028}\u{2029}\u{202f}\u{205f}\u{1680}\n"] {
        assert_eq!(store.put(b(blank), no_opts()), Err(StoreError::InvalidInput));
        assert!(blank.trim().is_empty());
    }
    assert_eq!(store.put(b("a\u{a0}"), no_opts()), Ok(1));
    assert_eq!(store.put(b("\u{200b}"), no_opts()), Ok(2));
    assert_eq!(store.put(vec![0xc2], no_opts()), Ok(3));
}

#[test]
fn refused_record_blocks_writes() {
    let mut file: Vec<u8> = Vec::new();
    put_file(&mut file, "kept", no_opts(), 1).unwrap();
    let good_end = file.len();
    // A committed set-active record for a frame that does not exist.
    let mut body = 9u64.to_le_bytes().to_vec();
    body.push(0);
    file.extend(encode_record(4, &body));
    file.extend(encode_commit_record(2));
    let (store, rec) = Store::open_log(&file).unwrap();
    assert!(rec.applied < rec.committed);
    assert_eq!(store.stats().frame_count, 1);
    assert_eq!(Store::open_for_write(&file).err(), Some(StoreError::Corruption));
    let mut clean = file.clone();
    clean.truncate(good_end);
    let (_, end) = Store::open_for_write(&clean).unwrap();
    assert_eq!(end, good_end);
}

#[test]
fn preview_never_cuts_a_character() {
    let mut store = Store::create(false).unwrap();
    let mut text = "a".repeat(119);
    text.push('é');
    text.push_str("tail");
    store.put(b(&text), no_opts()).unwrap();
    store.commit(1);
    let entries = store.timeline(&timeline(5, true)).unwrap();
    assert_eq!(entries[0].preview, b(&"a".repeat(119)));
    assert!(String::from_utf8(entries[0].preview.clone()).is_ok());
}
