use std::collections::hash_map::DefaultHasher;
use std::hash::Hasher;
use uranker::ranker::my_hashmap::MyMap;
use uranker::ranker::my_vec::MyVec;
use uranker::ranker::{append_from_lines, hash, map_f, my_hash, reduce_f};
use uranker::record::{encode_records, read_record, ReduceError};

fn sorted(mut v: Vec<(String, u64)>) -> Vec<(String, u64)> {
    v.sort();
    v
}

fn pair(k: &str, v: u64) -> (String, u64) {
    (k.to_string(), v)
}

#[test]
fn map_f_counts_each_url() {
    let r = map_f(String::new(), "a b a\nc\r\na".to_string());
    assert_eq!(r, vec![pair("a", 3), pair("b", 1), pair("c", 1)]);
}

#[test]
fn map_f_skips_empty_pieces() {
    let r = map_f(String::new(), "https://x.org\n".to_string());
    assert_eq!(r, vec![pair("https://x.org", 1)]);
    let r = map_f(String::new(), "a\r\nb".to_string());
    assert_eq!(r, vec![pair("a", 1), pair("b", 1)]);
    let r = map_f(String::new(), "  \n\n ".to_string());
    assert!(r.is_empty());
    let r = map_f(String::new(), String::new());
    assert!(r.is_empty());
}

#[test]
fn map_f_ignores_the_name() {
    let c = "x y x\n".to_string();
    assert_eq!(map_f("one".to_string(), c.clone()), map_f(String::new(), c));
}

#[test]
fn my_map_insert_adds_counts() {
    let mut m = MyMap::new();
    m.insert("a".to_string(), 2);
    m.insert("b".to_string(), 1);
    m.insert("a".to_string(), 5);
    assert_eq!(m.unpack(), vec![pair("a", 7), pair("b", 1)]);
}

#[test]
fn my_map_join_sums_counts() {
    let m1 = MyMap::from(vec![pair("a", 1), pair("b", 2)]);
    let m2 = MyMap::from(vec![pair("b", 3), pair("c", 4)]);
    let j = MyMap::join(m1, m2);
    assert_eq!(sorted(j.unpack()), vec![pair("a", 1), pair("b", 5), pair("c", 4)]);
}

#[test]
fn my_map_from_unpack_round_trip() {
    let v = vec![pair("x", 9), pair("y", 0)];
    assert_eq!(MyMap::from(v.clone()).unpack(), v);
}

#[test]
fn my_map_fits_detects_overflow() {
    let mut m = MyMap::new();
    m.insert("a".to_string(), u64::MAX - 1);
    assert!(m.fits(&"a".to_string(), 1));
    assert!(!m.fits(&"a".to_string(), 2));
    assert!(m.fits(&"b".to_string(), u64::MAX));
}

#[test]
fn my_vec_sifts_by_count() {
    let mut v = MyVec::new();
    v.insert(pair("a", 1));
    v.insert(pair("b", 5));
    v.insert(pair("c", 3));
    v.insert(pair("d", 3));
    assert_eq!(
        v.unpack(),
        vec![pair("b", 5), pair("c", 3), pair("d", 3), pair("a", 1)]
    );
}

#[test]
fn my_vec_resifts_a_raised_count() {
    let mut v = MyVec::new();
    v.insert(pair("a", 5));
    v.insert(pair("b", 4));
    v.insert(pair("b", 10));
    // the raised count is sifted in again at its place
    assert_eq!(v.unpack(), vec![pair("b", 14), pair("a", 5)]);
    let mut w = MyVec::new();
    w.insert(pair("b", 2));
    w.insert(pair("a", 1));
    w.insert(pair("a", 5));
    assert_eq!(w.unpack(), vec![pair("a", 6), pair("b", 2)]);
}

#[test]
fn my_vec_full_list_keeps_a_raised_key() {
    let mut v = MyVec::new();
    for i in 0..100u64 {
        v.insert((format!("k{}", i), 1000 - i));
    }
    v.insert(pair("k99", 5000));
    let r = v.unpack();
    assert_eq!(r.len(), 100);
    assert_eq!(r[0], pair("k99", 5901));
    assert_eq!(r[99], pair("k98", 902));
}

#[test]
fn my_vec_keeps_at_most_capacity() {
    let mut v = MyVec::new();
    for i in 0..100u64 {
        v.insert((format!("k{}", i), 1000 - i));
    }
    // full and no count is smaller: dropped
    v.insert(pair("small", 1));
    // a larger count goes in, the last entry drops out
    v.insert(pair("big", 5000));
    let r = v.unpack();
    assert_eq!(r.len(), 100);
    assert_eq!(r[0], pair("big", 5000));
    assert_eq!(r[99], pair("k98", 902));
    assert!(!r.iter().any(|p| p.0 == "small" || p.0 == "k99"));
}

#[test]
fn my_vec_fits_detects_overflow() {
    let mut v = MyVec::new();
    v.insert(pair("a", u64::MAX));
    assert!(!v.fits(&pair("a", 1)));
    assert!(v.fits(&pair("b", 1)));
}

#[test]
fn hash_is_default_hasher_of_bytes() {
    let mut h = DefaultHasher::new();
    h.write("https://a.b".as_bytes());
    let expected = h.finish() as usize;
    assert_eq!(hash("https://a.b".to_string()), expected);
    assert_eq!(my_hash(b"https://a.b".to_vec()), expected);
    assert_ne!(hash("x".to_string()), hash("y".to_string()));
}

#[test]
fn read_record_parses_json_pairs() {
    assert_eq!(read_record("[\"a\",3]"), Some(pair("a", 3)));
    assert_eq!(read_record(" [\"b c\", 18446744073709551615] "), Some(pair("b c", u64::MAX)));
    assert_eq!(read_record("[\"a\",-3]"), None);
    assert_eq!(read_record("not json"), None);
    assert_eq!(read_record(""), None);
}

#[test]
fn encode_records_prints_json_lines() {
    let s = encode_records(&vec![pair("a", 3), pair("q\"x", 0)]);
    assert_eq!(s, "[\"a\",3]\n[\"q\\\"x\",0]\n");
    assert_eq!(encode_records(&vec![]), "");
}

#[test]
fn records_round_trip() {
    let v = vec![pair("https://x", 7), pair("", 1), pair("a\nb\r\"\\", 3)];
    let text = encode_records(&v);
    let back: Vec<(String, u64)> = text.lines().map(|l| read_record(l).unwrap()).collect();
    assert_eq!(back, v);
}

fn lines(ls: &[&str]) -> Vec<String> {
    ls.iter().map(|s| s.to_string()).collect()
}

#[test]
fn reduce_f_merges_all_files() {
    let files = vec![
        lines(&["[\"a\",3]", "[\"b\",1]"]),
        lines(&["[\"b\",4]", "[\"c\",2]"]),
    ];
    let r = reduce_f(0, 1, &files).unwrap().unwrap();
    assert_eq!(r, vec![pair("b", 5), pair("a", 3), pair("c", 2)]);
}

#[test]
fn reduce_f_without_lines_needs_no_workers() {
    let files: Vec<Vec<String>> = vec![vec![]];
    assert_eq!(reduce_f(0, 0, &files), Ok(None));
    assert_eq!(reduce_f(0, 0, &vec![]), Ok(None));
}

#[test]
fn reduce_f_empty_is_none() {
    let files: Vec<Vec<String>> = vec![vec![], vec![]];
    assert_eq!(reduce_f(0, 1, &files), Ok(None));
}

#[test]
fn reduce_f_keeps_only_its_keys() {
    let keys = ["a", "b", "c", "d", "e", "f", "g"];
    let file: Vec<String> = keys.iter().map(|k| format!("[\"{}\",1]", k)).collect();
    let files = vec![file];
    let mut seen = 0;
    for w in 0..3 {
        if let Some(v) = reduce_f(w, 3, &files).unwrap() {
            for (k, _) in &v {
                assert_eq!(hash(k.clone()) % 3, w);
            }
            seen += v.len();
        }
    }
    assert_eq!(seen, keys.len());
}

#[test]
fn reduce_f_reports_bad_record() {
    let files = vec![lines(&["[\"a\",3]", "garbage"])];
    assert_eq!(reduce_f(0, 1, &files), Err(ReduceError::BadRecord));
}

#[test]
fn reduce_f_reports_overflow() {
    let files = vec![lines(&["[\"a\",18446744073709551615]", "[\"a\",1]"])];
    assert_eq!(reduce_f(0, 1, &files), Err(ReduceError::CountOverflow));
}

#[test]
fn append_from_lines_skips_other_workers_keys() {
    let ls = lines(&["[\"a\",3]"]);
    let w = hash("a".to_string()) % 2;
    let kept = append_from_lines(MyVec::new(), w, 2, &ls).unwrap();
    assert_eq!(kept.unpack(), vec![pair("a", 3)]);
    let skipped = append_from_lines(MyVec::new(), 1 - w, 2, &ls).unwrap();
    assert!(skipped.unpack().is_empty());
}

#[test]
fn map_f_of_joined_text_is_join_of_parts() {
    let a = "x y x".to_string();
    let b = "y z".to_string();
    let joined = map_f(String::new(), format!("{}\n{}", a, b));
    let parts = MyMap::join(
        MyMap::from(map_f(String::new(), a)),
        MyMap::from(map_f(String::new(), b)),
    );
    assert_eq!(sorted(joined), sorted(parts.unpack()));
}

#[test]
fn my_map_join_laws() {
    let a = vec![pair("a", 1), pair("b", 2)];
    let b = vec![pair("b", 3), pair("c", 4)];
    let ab = MyMap::join(MyMap::from(a.clone()), MyMap::from(b.clone())).unpack();
    let ba = MyMap::join(MyMap::from(b.clone()), MyMap::from(a.clone())).unpack();
    assert_eq!(sorted(ab), sorted(ba));
    assert_eq!(MyMap::join(MyMap::from(a.clone()), MyMap::new()).unpack(), a);
    assert_eq!(MyMap::join(MyMap::new(), MyMap::from(a.clone())).unpack(), a);
}

#[test]
fn encode_records_escapes_keys() {
    let s = encode_records(&vec![pair("a\"b\\c\n\u{1}\u{8}\u{c}\r\té", 18446744073709551615)]);
    assert_eq!(
        s,
        "[\"a\\\"b\\\\c\\n\\u0001\\b\\f\\r\\té\",18446744073709551615]\n"
    );
    assert_eq!(encode_records(&vec![pair("\u{1f}", 0)]), "[\"\\u001f\",0]\n");
}
