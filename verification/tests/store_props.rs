//! The block store's behaviour on concrete scenarios: round trips,
//! upserts, capacity limits, persistence and the error taxonomy.

use blockstore::codec::{encode_i32, encode_str, Blob, Error};
use blockstore::store::Store;

fn str_blob(k: &str, v: &str) -> Blob {
    Blob::from(encode_str(k), encode_str(v))
}

#[test]
fn test_create_file() {
    let bs = Store::new(1000, 10);
    let blocksize = bs.block_size();

    let bs2 = Store::open(&bs.to_bytes()).unwrap();
    assert_eq!(bs2.block_size(), blocksize);
}

#[test]
fn test_insert_only() {
    let bs = Store::new(1000, 10);
    let blocksize = bs.block_size();

    let mut bs2 = Store::open(&bs.to_bytes()).unwrap();
    assert_eq!(bs2.block_size(), blocksize);

    bs2.insert_only(str_blob("fish", "so long and thanks for all the fish"))
        .unwrap();
    bs2.insert_only(Blob::from(
        encode_i32(23),
        encode_str("a big number for small counters"),
    ))
    .unwrap();
    bs2.insert_only(str_blob("green", "is a colour i guess")).unwrap();
    bs2.insert_only(str_blob("happy", "is friends with sleepy")).unwrap();
    let image = bs2.to_bytes();
    drop(bs2);

    let mut b3 = Store::open(&image).unwrap();
    assert_eq!(
        b3.get(&encode_str("green")).unwrap().get_v().unwrap(),
        "is a colour i guess".to_string(),
    );
    b3.remove(&encode_str("green")).ok();
    assert!(b3.get(&encode_str("green")).is_err());
    assert!(b3.get(&encode_str("fish")).is_ok());
}

#[test]
fn round_trip_insert_get() {
    let mut s = Store::new(1000, 10);
    s.insert(str_blob("key", "value")).unwrap();
    let got = s.get(&encode_str("key")).unwrap();
    assert_eq!(got.get_v().unwrap(), "value".to_string());
    assert_eq!(got.val_bytes(), &encode_str("value"));
}

#[test]
fn upsert_keeps_one_record() {
    let mut s = Store::new(1000, 10);
    s.insert(str_blob("k", "first")).unwrap();
    s.insert(str_blob("k", "second")).unwrap();
    assert_eq!(s.element_count(), 1);
    assert_eq!(s.get(&encode_str("k")).unwrap().get_v().unwrap(), "second");
    s.remove(&encode_str("k")).unwrap();
    assert!(s.get(&encode_str("k")).is_err());
}

#[test]
fn remove_is_idempotent() {
    let mut s = Store::new(1000, 10);
    assert_eq!(s.remove(&encode_str("absent")), Ok(()));
    s.insert(str_blob("a", "b")).unwrap();
    assert_eq!(s.element_count(), 1);
    let once = {
        let mut c = Store::open(&s.to_bytes()).unwrap();
        c.remove(&encode_str("a")).unwrap();
        c.to_bytes()
    };
    let twice = {
        let mut c = Store::open(&s.to_bytes()).unwrap();
        c.remove(&encode_str("a")).unwrap();
        c.remove(&encode_str("a")).unwrap();
        c.to_bytes()
    };
    assert_eq!(once, twice);
}

#[test]
fn persistence_across_reopen() {
    let mut s = Store::new(1000, 10);
    s.insert(str_blob("alpha", "one")).unwrap();
    s.insert(str_blob("beta", "two")).unwrap();
    s.insert(str_blob("gamma", "three")).unwrap();
    let image = s.to_bytes();
    drop(s);

    let r = Store::open(&image).unwrap();
    assert_eq!(r.block_size(), 1000);
    assert_eq!(r.block_count(), 10);
    assert_eq!(r.element_count(), 3);
    assert_eq!(r.get(&encode_str("alpha")).unwrap().get_v().unwrap(), "one");
    assert_eq!(r.get(&encode_str("beta")).unwrap().get_v().unwrap(), "two");
    assert_eq!(r.get(&encode_str("gamma")).unwrap().get_v().unwrap(), "three");
}

#[test]
fn no_room_in_a_single_small_bucket() {
    // 64-byte block, one bucket: 48 bytes of free payload after the
    // initial free slot's header.
    let mut s = Store::new(64, 1);
    // Framed size 16 + 9 + 9 = 34: fits the 64-byte run exactly once.
    let first = str_blob("a", "b");
    s.insert(first).unwrap();
    let second = str_blob("c", "d");
    assert_eq!(s.insert(second), Err(Error::NoRoom));
    let third = str_blob("e", "f");
    assert_eq!(s.insert(third), Err(Error::NoRoom));
    assert_eq!(s.element_count(), 1);
    assert_eq!(s.get(&encode_str("a")).unwrap().get_v().unwrap(), "b");
}

#[test]
fn exact_fill_and_refill() {
    let mut s = Store::new(64, 1);
    // Framed size 16 + 4 + 44 = 64: fills the whole bucket.
    let big = Blob::from(encode_i32(7), vec![9u8; 44]);
    s.insert(big).unwrap();
    assert_eq!(s.insert(str_blob("x", "y")), Err(Error::NoRoom));
    s.remove(&encode_i32(7)).unwrap();
    assert_eq!(s.element_count(), 0);
    let again = Blob::from(encode_i32(7), vec![3u8; 44]);
    s.insert(again).unwrap();
    assert_eq!(s.get(&encode_i32(7)).unwrap().val_bytes(), &vec![3u8; 44]);
}

#[test]
fn too_big_regardless_of_occupancy() {
    let mut s = Store::new(64, 1);
    let huge = Blob::from(encode_str("k"), vec![0u8; 100]);
    match s.insert(huge) {
        Err(Error::TooBig(len)) => assert_eq!(len, 16 + 9 + 100),
        other => panic!("expected TooBig, got {:?}", other),
    }
}

#[test]
fn open_rejects_truncated_images() {
    assert!(matches!(Store::open(&vec![0u8; 16]), Err(Error::Io)));
    let s = Store::new(1000, 10);
    let mut image = s.to_bytes();
    image.truncate(100);
    assert!(matches!(Store::open(&image), Err(Error::Io)));
}

#[test]
fn concrete_store_scenario() {
    let mut bs = Store::new(1000, 10);
    bs.insert(str_blob("fish", "so long and thanks for all the fish"))
        .unwrap();
    bs.insert(Blob::from(
        encode_i32(23),
        encode_str("a big number for small counters"),
    ))
    .unwrap();
    bs.insert(str_blob("green", "is a colour i guess")).unwrap();
    bs.insert(str_blob("happy", "is friends with sleepy")).unwrap();
    let image = bs.to_bytes();
    drop(bs);

    let mut bs = Store::open(&image).unwrap();
    assert_eq!(
        bs.get(&encode_str("green")).unwrap().get_v().unwrap(),
        "is a colour i guess"
    );
    bs.remove(&encode_str("green")).ok();
    assert!(matches!(bs.get(&encode_str("green")), Err(Error::NotFound)));
    assert!(bs.get(&encode_str("fish")).is_ok());
    assert_eq!(
        bs.get(&encode_i32(23)).unwrap().get_v().unwrap(),
        "a big number for small counters"
    );
}

#[test]
fn coalescing_frees_a_full_run() {
    // Two records fill the bucket: removing the first merges its slot
    // with nothing (the next slot is occupied); removing the second
    // merges forward into the trailing free slot.
    let mut s = Store::new(100, 1);
    let a = Blob::from(vec![1u8; 4], vec![0u8; 10]);
    let b = Blob::from(vec![2u8; 4], vec![0u8; 10]);
    s.insert(a).unwrap();
    s.insert(b).unwrap();
    s.remove(&vec![2u8; 4]).unwrap();
    s.remove(&vec![1u8; 4]).unwrap();
    assert_eq!(s.element_count(), 0);
    // The whole bucket is free again: a large record fits.
    let big = Blob::from(vec![3u8; 4], vec![7u8; 64]);
    s.insert(big).unwrap();
    assert_eq!(s.get(&vec![3u8; 4]).unwrap().val_bytes(), &vec![7u8; 64]);
}

#[test]
fn blob_framing_round_trip() {
    let blob = Blob::from(encode_i32(87), encode_str("hello world"));
    let mut out: Vec<u8> = Vec::new();
    blob.write(&mut out);
    let back = Blob::read(&out, 0).unwrap();
    assert_eq!(back.key_bytes(), blob.key_bytes());
    assert_eq!(back.val_bytes(), blob.val_bytes());
    assert_eq!(back.get_v().unwrap(), "hello world");
    assert_eq!(back.len(), out.len());
    assert!(!back.is_empty());
}

#[test]
fn decode_rejects_garbage() {
    let b = Blob::from(vec![1u8], vec![255u8; 3]);
    assert_eq!(b.get_v(), Err(Error::BinCode));
}

#[test]
fn string_encoding_is_framed() {
    // The external codec length-prefixes strings: the encoding is not
    // the raw bytes.
    let e = encode_str("hi");
    assert_eq!(e.len(), 10);
    assert_ne!(e, b"hi".to_vec());
    let roundtrip = Blob::from(vec![1u8], e);
    assert_eq!(roundtrip.get_v().unwrap(), "hi");
}
