use sherbert::{decode_value, encode_record, parse_length, DecodeError, FileMap, KeyValMap};
use sherbert::{DEPTH_CAPACITY, WRITE_MAX};

fn s(x: &str) -> String {
    String::from(x)
}

fn last_depth(store: &KeyValMap) -> usize {
    *store.depths().last().unwrap()
}

#[test]
fn mod_it_works() {}

#[test]
fn main_it_works() {}

#[test]
fn test_write() {
    let mut filemap = KeyValMap::new(String::from("test_files/sherbert"));
    filemap.add(String::from("test"), String::from("somee contents"));
    filemap.add(String::from("newkey"), String::from("new thing"));

    let new_key_response = filemap.get(String::from("newkey"));
    assert_eq!(new_key_response, Some(String::from("new thing")));
    assert_eq!(filemap.get(String::from("test")), Some(String::from("somee contents")));
}

#[test]
fn two_keys_on_fresh_store() {
    let mut store = KeyValMap::new(s("db"));
    store.add(s("test"), s("some contents"));
    store.add(s("newkey"), s("new thing"));
    assert_eq!(store.get(s("newkey")), Some(s("new thing")));
    assert_eq!(store.get(s("test")), Some(s("some contents")));
}

#[test]
fn round_trip_non_ascii_value() {
    let mut store = KeyValMap::new(s("db"));
    store.add(s("clé"), s("héllo wörld, ünïcode"));
    assert_eq!(store.get(s("clé")), Some(s("héllo wörld, ünïcode")));
    store.add(s("empty"), s(""));
    assert_eq!(store.get(s("empty")), Some(s("")));
}

#[test]
fn absent_key_is_none() {
    let mut store = KeyValMap::new(s("db"));
    assert_eq!(store.get(s("missing")), None);
    store.add(s("a"), s("1"));
    assert_eq!(store.get(s("b")), None);
}

#[test]
fn last_write_wins_in_one_segment() {
    let mut store = KeyValMap::new(s("db"));
    store.add(s("k"), s("v1"));
    store.add(s("k"), s("v2"));
    assert_eq!(store.get(s("k")), Some(s("v2")));
    assert_eq!(store.files.len(), 1);
    assert_eq!(store.files[0].index.len(), 1);
    assert_eq!(store.files[0].writes, 2);
}

#[test]
fn rotation_after_threshold() {
    let mut store = KeyValMap::new(s("test_files/sherbert"));
    assert_eq!(WRITE_MAX, 55);
    for i in 0..55 {
        store.add(format!("key{}", i), format!("value{}", i));
        assert_eq!(store.files.len(), 1);
    }
    assert_eq!(store.files[0].writes, 55);
    store.add(s("key55"), s("value55"));
    assert_eq!(store.files.len(), 2);
    assert_eq!(store.files[1].writes, 1);
    assert_eq!(store.files[0].path, s("test_files/sherbert_1.dat"));
    assert_eq!(store.files[1].path, s("test_files/sherbert_2.dat"));
    for i in 0..56 {
        assert_eq!(store.get(format!("key{}", i)), Some(format!("value{}", i)));
    }
}

#[test]
fn newer_segment_shadows_older() {
    let mut store = KeyValMap::new(s("db"));
    store.add(s("k"), s("old"));
    for i in 0..54 {
        store.add(format!("f{}", i), s("x"));
    }
    store.add(s("k"), s("new"));
    assert_eq!(store.files.len(), 2);
    assert_eq!(store.get(s("k")), Some(s("new")));
    assert_eq!(last_depth(&store), 1);
    assert_eq!(store.get(s("f0")), Some(s("x")));
    assert_eq!(last_depth(&store), 2);
}

#[test]
fn miss_depth_counts_all_segments() {
    let mut store = KeyValMap::new(s("db"));
    assert_eq!(store.get(s("nothing")), None);
    assert_eq!(last_depth(&store), 1);
    for i in 0..111 {
        store.add(format!("k{}", i), s("v"));
    }
    assert_eq!(store.files.len(), 3);
    assert_eq!(store.get(s("nothing")), None);
    assert_eq!(store.depths(), vec![1, 3]);
}

#[test]
fn depth_history_keeps_newest() {
    let mut store = KeyValMap::new(s("db"));
    assert_eq!(DEPTH_CAPACITY, 128);
    store.add(s("a"), s("1"));
    for _ in 0..130 {
        store.get(s("a"));
    }
    store.get(s("zzz"));
    let d = store.depths();
    assert_eq!(d.len(), 128);
    assert_eq!(*d.last().unwrap(), 1);
}

#[test]
fn reopen_gives_same_answers() {
    let mut store = KeyValMap::new(s("db"));
    for i in 0..60 {
        store.add(format!("k{}", i % 40), format!("v{}", i));
    }
    let bytes: Vec<Vec<u8>> = store.files.iter().map(|f| f.data.clone()).collect();
    let mut again = KeyValMap::rebuild(s("db"), bytes);
    assert_eq!(again.files.len(), 2);
    assert_eq!(again.files[1].path, s("db_2.dat"));
    assert_eq!(again.files[1].writes, store.files[1].writes);
    for i in 0..45 {
        assert_eq!(again.get(format!("k{}", i)), store.get(format!("k{}", i)));
    }
    assert_eq!(again.get(s("k0")), Some(s("v40")));
    again.add(s("late"), s("entry"));
    assert_eq!(again.get(s("late")), Some(s("entry")));
}

#[test]
fn rebuild_with_no_files_starts_fresh() {
    let store = KeyValMap::rebuild(s("db"), Vec::new());
    assert_eq!(store.files.len(), 1);
    assert_eq!(store.files[0].path, s("db_1.dat"));
    assert_eq!(store.files[0].end, 0);
}

#[test]
fn replay_stops_at_truncated_tail() {
    let mut seg = FileMap::new(s("seg"));
    seg.add(s("a"), s("alpha"));
    seg.add(s("b"), s("beta"));
    let whole = seg.data.clone();
    let mut cut = whole.clone();
    cut.truncate(whole.len() - 2);
    let back = FileMap::rebuild(s("seg"), cut);
    assert_eq!(back.end, 18);
    assert_eq!(back.writes, 1);
    assert_eq!(back.get(s("a")), Some(s("alpha")));
    assert_eq!(back.get(s("b")), None);
    let full = FileMap::rebuild(s("seg"), whole.clone());
    assert_eq!(full.end as usize, whole.len());
    assert_eq!(full.get(s("b")), Some(s("beta")));
}

#[test]
fn replay_stops_at_invalid_utf8_value() {
    let mut bytes = b"a,0000000001,x".to_vec();
    bytes.extend_from_slice(b"b,0000000002,");
    bytes.extend_from_slice(&[0xff, 0xfe]);
    let back = FileMap::rebuild(s("seg"), bytes);
    assert_eq!(back.end, 14);
    assert_eq!(back.get(s("a")), Some(s("x")));
    assert_eq!(back.get(s("b")), None);
}

#[test]
fn encode_record_layout() {
    let r = encode_record(b"test", b"some contents");
    assert_eq!(r, b"test,0000000013,some contents".to_vec());
    assert_eq!(encode_record(b"", b""), b",0000000000,".to_vec());
}

#[test]
fn add_returns_appended_bytes() {
    let mut store = KeyValMap::new(s("db"));
    let r = store.add(s("k"), s("val"));
    assert_eq!(r, b"k,0000000003,val".to_vec());
    let r2 = store.add(s("k2"), s("é"));
    assert_eq!(r2, b"k2,0000000002,\xc3\xa9".to_vec());
    assert_eq!(store.files[0].data.len(), r.len() + r2.len());
    assert_eq!(store.files[0].end as usize, r.len() + r2.len());
}

#[test]
fn decode_value_reads_record() {
    let data = b"xx,0000000003,abcdef".to_vec();
    assert_eq!(decode_value(&data, 0, 2), Ok(b"abc".to_vec()));
}

#[test]
fn decode_value_errors() {
    let data = b"k,0000000003,ab".to_vec();
    assert_eq!(decode_value(&data, 0, 1), Err(DecodeError::TruncatedValue));
    assert_eq!(decode_value(&data, 5, 1), Err(DecodeError::TruncatedHeader));
    let bad = b"k,00000x0003,abc".to_vec();
    assert_eq!(decode_value(&bad, 0, 1), Err(DecodeError::BadLength));
    let nosep = b"k,0000000003;abc".to_vec();
    assert_eq!(decode_value(&nosep, 0, 1), Err(DecodeError::MissingSeparator));
}

#[test]
fn parse_length_values() {
    assert_eq!(parse_length(b"0000000013"), Some(13));
    assert_eq!(parse_length(b"9999999999"), Some(9999999999));
    assert_eq!(parse_length(b"00000-0013"), None);
    assert_eq!(parse_length(b""), Some(0));
}

#[test]
fn next_segment_is_announced() {
    let mut store = KeyValMap::new(s("data/db"));
    assert_eq!(store.next_segment_path(), s("data/db_2.dat"));
    for i in 0..55 {
        assert!(!store.next_put_rotates());
        store.add(format!("k{}", i), s("v"));
    }
    assert!(store.next_put_rotates());
    store.add(s("k55"), s("v"));
    assert!(!store.next_put_rotates());
    assert_eq!(store.next_segment_path(), s("data/db_3.dat"));
    assert_eq!(store.files[1].path, s("data/db_2.dat"));
}

#[test]
fn segment_names_past_nine() {
    let mut store = KeyValMap::new(s("p"));
    for i in 0..(55 * 11 + 1) {
        store.add(format!("k{}", i), s("v"));
    }
    assert_eq!(store.files.len(), 12);
    assert_eq!(store.files[9].path, s("p_10.dat"));
    assert_eq!(store.files[11].path, s("p_12.dat"));
}
