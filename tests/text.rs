use memvid::codec::{decode_record, decode_records, encode_record};
use memvid::log::{decode_draft, decode_ts, encode_commit_record, encode_frame_record};
use memvid::store::PutOptions;
use memvid::text::{count_term, first_match, tokenize};

#[test]
fn tokenize_folds_and_splits() {
    let toks = tokenize(b"Hello, WORLD! x1-y");
    let texts: Vec<Vec<u8>> = toks.iter().map(|t| t.0.clone()).collect();
    assert_eq!(texts, vec![b"hello".to_vec(), b"world".to_vec(), b"x1".to_vec(), b"y".to_vec()]);
    let starts: Vec<usize> = toks.iter().map(|t| t.1).collect();
    assert_eq!(starts, vec![0, 7, 14, 17]);
    assert!(tokenize(b"  ,. ").is_empty());
}

#[test]
fn term_counts_and_scores() {
    let toks = tokenize(b"rust and Rust and RUST");
    assert_eq!(count_term(&toks, &b"rust".to_vec()), 3);
    assert_eq!(count_term(&toks, &b"and".to_vec()), 2);
    assert_eq!(first_match(&toks, &vec![b"and".to_vec()]), Some(5));
    assert_eq!(first_match(&toks, &vec![b"go".to_vec()]), None);
}

#[test]
fn record_round_trip() {
    let body = b"some body".to_vec();
    let rec = encode_record(7, &body);
    assert_eq!(rec.len(), body.len() + 9);
    let (k, got, next) = decode_record(&rec, 0).unwrap();
    assert_eq!((k, got, next), (7, body.clone(), rec.len()));
    assert!(decode_record(&rec[..rec.len() - 1].to_vec(), 0).is_none());
    let mut bad = rec.clone();
    bad[6] ^= 1;
    assert!(decode_record(&bad, 0).is_none());
    let mut two = rec.clone();
    two.extend(encode_record(8, &Vec::new()));
    two.push(0);
    let (recs, stop) = decode_records(&two, 0);
    assert_eq!(recs, vec![(7, body), (8, Vec::new())]);
    assert_eq!(stop, two.len() - 1);
}

#[test]
fn draft_and_time_round_trip() {
    let opts = PutOptions {
        uri: Some(b"mv2://x".to_vec()),
        title: None,
        tags: vec![b"t1".to_vec(), b"".to_vec()],
    };
    let rec = encode_frame_record(&b"payload".to_vec(), &opts).unwrap();
    let (_, body, _) = decode_record(&rec, 0).unwrap();
    let d = decode_draft(&body).unwrap();
    assert_eq!(d.payload, b"payload".to_vec());
    assert_eq!(d.uri, opts.uri);
    assert_eq!(d.title, None);
    assert_eq!(d.tags, opts.tags);
    for t in [0i64, -1, 1_700_000_000, i64::MIN, i64::MAX] {
        let rec = encode_commit_record(t);
        let (k, body, _) = decode_record(&rec, 0).unwrap();
        assert_eq!(k, 2);
        assert_eq!(decode_ts(&body), Some(t));
    }
    assert_eq!(decode_ts(&vec![0u8; 7]), None);
    assert!(decode_draft(&vec![1, 0, 0]).is_none());
}

#[test]
fn non_ascii_words_are_tokens() {
    let toks = tokenize("Café crème, naïve".as_bytes());
    let texts: Vec<Vec<u8>> = toks.iter().map(|t| t.0.clone()).collect();
    assert_eq!(
        texts,
        vec!["café".as_bytes().to_vec(), "crème".as_bytes().to_vec(), "naïve".as_bytes().to_vec()]
    );
}
