use kv_store::compaction::next_threshold;
use kv_store::constants::{DEFAULT_COMPACT_THRESHOLD, FILE_HEADER_MAGIC, FILE_HEADER_SIZE};
use kv_store::header::encode_header;
use kv_store::state::{decode_value, delete_record, set_record, EngineState, StoreError};

/// A data file held in memory, driven the way the engine drives the real one.
struct Disk {
    file: Vec<u8>,
    st: EngineState,
}

fn open_disk(file: Vec<u8>) -> Disk {
    open_disk_with(file, DEFAULT_COMPACT_THRESHOLD)
}

fn open_disk_with(mut file: Vec<u8>, threshold: u64) -> Disk {
    let (st, header) = EngineState::open(&file, threshold).unwrap();
    if let Some(h) = header {
        file = h;
    }
    Disk { file, st }
}

fn header_file(threshold: u64) -> Vec<u8> {
    let mut f = FILE_HEADER_MAGIC.to_vec();
    f.extend_from_slice(&threshold.to_le_bytes());
    f
}

fn threshold_in(file: &[u8]) -> u64 {
    assert_eq!(&file[0..4], &FILE_HEADER_MAGIC);
    u64::from_le_bytes(file[4..12].try_into().unwrap())
}

fn set(d: &mut Disk, key: &[u8], value: &[u8]) {
    let a = set_record(0, key, value).unwrap();
    assert!(d.st.can_append(&a));
    d.file.extend_from_slice(a.frame());
    if d.st.commit(a) {
        compact(d);
    }
}

fn del(d: &mut Disk, key: &[u8]) {
    let a = delete_record(0, key).unwrap();
    assert!(d.st.can_append(&a));
    d.file.extend_from_slice(a.frame());
    assert!(!d.st.commit(a));
}

fn get(d: &Disk, key: &[u8]) -> Option<Vec<u8>> {
    let loc = d.st.lookup(key)?;
    let body = &d.file[loc.pos as usize..(loc.pos + loc.len) as usize];
    decode_value(body).unwrap()
}

fn compact(d: &mut Disk) {
    let (mut c, header) = d.st.begin_compaction();
    let mut next = header;
    for (key, loc) in d.st.snapshot() {
        let body = d.file[loc.pos as usize..(loc.pos + loc.len) as usize].to_vec();
        let f = c.add(&d.st, key, &body).unwrap();
        next.extend_from_slice(&f);
    }
    if let Some(t) = d.st.install(c) {
        next[0..12].copy_from_slice(&encode_header(t));
    }
    d.file = next;
}

fn reopen(d: Disk) -> Disk {
    open_disk(d.file)
}

#[test]
fn test_set_and_get() {
    let mut d = open_disk(Vec::new());
    set(&mut d, b"name", b"alice");
    assert_eq!(get(&d, b"name"), Some(b"alice".to_vec()));
}

#[test]
fn test_get_nonexistent_key_returns_none() {
    let d = open_disk(Vec::new());
    assert_eq!(get(&d, b"ghost"), None);
}

#[test]
fn test_delete_key() {
    let mut d = open_disk(Vec::new());
    set(&mut d, b"key", b"value");
    del(&mut d, b"key");
    assert_eq!(get(&d, b"key"), None);
}

#[test]
fn test_delete_nonexistent_key_is_ok() {
    let mut d = open_disk(Vec::new());
    let before = d.file.len();
    del(&mut d, b"nothing");
    assert!(d.file.len() > before);
    assert_eq!(d.st.file_size() as usize, d.file.len());
}

#[test]
fn test_overwrite_key() {
    let mut d = open_disk(Vec::new());
    set(&mut d, b"k", b"v1");
    set(&mut d, b"k", b"v2");
    assert_eq!(get(&d, b"k"), Some(b"v2".to_vec()));
}

#[test]
fn test_multiple_keys() {
    let mut d = open_disk(Vec::new());
    set(&mut d, b"a", b"1");
    set(&mut d, b"b", b"2");
    set(&mut d, b"c", b"3");
    assert_eq!(get(&d, b"a"), Some(b"1".to_vec()));
    assert_eq!(get(&d, b"b"), Some(b"2".to_vec()));
    assert_eq!(get(&d, b"c"), Some(b"3".to_vec()));
}

#[test]
fn test_index_rebuilt_after_reload() {
    let mut d = open_disk(Vec::new());
    set(&mut d, b"foo", b"bar");
    set(&mut d, b"hello", b"world");
    let d = reopen(d);
    assert_eq!(get(&d, b"foo"), Some(b"bar".to_vec()));
    assert_eq!(get(&d, b"hello"), Some(b"world".to_vec()));
}

#[test]
fn test_delete_persists_after_reload() {
    let mut d = open_disk(Vec::new());
    set(&mut d, b"key", b"val");
    del(&mut d, b"key");
    let d = reopen(d);
    assert_eq!(get(&d, b"key"), None);
}

#[test]
fn test_overwrite_persists_after_reload() {
    let mut d = open_disk(Vec::new());
    set(&mut d, b"k", b"old");
    set(&mut d, b"k", b"new");
    let d = reopen(d);
    assert_eq!(get(&d, b"k"), Some(b"new".to_vec()));
}

#[test]
fn test_empty_value() {
    let mut d = open_disk(Vec::new());
    set(&mut d, b"empty", b"");
    assert_eq!(get(&d, b"empty"), Some(b"".to_vec()));
}

#[test]
fn test_large_value() {
    let mut d = open_disk(Vec::new());
    let large_val = vec![0xABu8; DEFAULT_COMPACT_THRESHOLD as usize];
    set(&mut d, b"big", &large_val);
    assert_eq!(get(&d, b"big"), Some(large_val));
}

#[test]
fn test_binary_keys_and_values() {
    let mut d = open_disk(Vec::new());
    let key = vec![0x00, 0xFF, 0x42, 0x13];
    let val = vec![0xDE, 0xAD, 0xBE, 0xEF];
    set(&mut d, &key, &val);
    assert_eq!(get(&d, &key), Some(val));
}

#[test]
fn test_many_overwrites_index_stays_correct() {
    let mut d = open_disk(Vec::new());
    for i in 0..100u32 {
        set(&mut d, b"counter", &i.to_le_bytes());
    }
    assert_eq!(get(&d, b"counter"), Some(99u32.to_le_bytes().to_vec()));
}

#[test]
fn test_compact_live_keys_still_readable() {
    let mut d = open_disk(Vec::new());
    set(&mut d, b"a", b"1");
    set(&mut d, b"b", b"2");
    compact(&mut d);
    assert_eq!(get(&d, b"a"), Some(b"1".to_vec()));
    assert_eq!(get(&d, b"b"), Some(b"2".to_vec()));
}

#[test]
fn test_compact_removes_stale_entries() {
    let mut d = open_disk(Vec::new());
    for i in 0..50u32 {
        set(&mut d, b"k", &i.to_le_bytes());
    }
    let size_before = d.file.len();
    compact(&mut d);
    let size_after = d.file.len();
    assert!(size_after < size_before);
    assert_eq!(get(&d, b"k"), Some(49u32.to_le_bytes().to_vec()));
}

#[test]
fn test_compact_drops_deleted_keys() {
    let mut d = open_disk(Vec::new());
    set(&mut d, b"gone", b"bye");
    del(&mut d, b"gone");
    compact(&mut d);
    assert_eq!(get(&d, b"gone"), None);
    assert_eq!(d.file.len(), 12);
    assert_eq!(d.st.file_size(), FILE_HEADER_SIZE);
}

#[test]
fn test_compact_empty_engine() {
    let mut d = open_disk(Vec::new());
    compact(&mut d);
    assert_eq!(get(&d, b"anything"), None);
}

#[test]
fn test_auto_compact_triggered_by_threshold() {
    let threshold = 512;
    let mut d = open_disk(header_file(threshold));
    for i in 0..200u32 {
        set(&mut d, b"key", &i.to_le_bytes());
    }
    assert!((d.file.len() as u64) < threshold * 10);
    assert_eq!(get(&d, b"key"), Some(199u32.to_le_bytes().to_vec()));
}

#[test]
fn test_threshold_persisted_in_file_header() {
    let mut d = open_disk(Vec::new());
    set(&mut d, b"k", b"v");
    assert!(d.file.len() as u64 >= FILE_HEADER_SIZE);
    assert_eq!(threshold_in(&d.file), DEFAULT_COMPACT_THRESHOLD);
}

#[test]
fn test_threshold_doubles_when_compaction_size_unchanged() {
    let threshold = 64;
    let mut d = open_disk(header_file(threshold));
    set(&mut d, b"only-key", &vec![b'x'; 256]);
    assert_eq!(threshold_in(&d.file), threshold * 2);
    assert_eq!(d.st.threshold(), threshold * 2);
}

#[test]
fn reopen_keeps_stored_threshold_over_default() {
    let d = open_disk_with(header_file(777), 5);
    assert_eq!(d.st.threshold(), 777);
    let fresh = open_disk_with(Vec::new(), 5);
    assert_eq!(threshold_in(&fresh.file), 5);
    assert_eq!(fresh.file.len(), 12);
}

#[test]
fn short_file_is_missing_header() {
    let r = EngineState::open(&[0x4b, 0x56, 0x53], 64);
    assert!(matches!(r, Err(StoreError::MissingHeader)));
}

#[test]
fn wrong_magic_is_unsupported() {
    let mut f = header_file(64);
    f[0] = b'X';
    let r = EngineState::open(&f, 64);
    assert!(matches!(r, Err(StoreError::UnsupportedFormat)));
}

#[test]
fn undecodable_body_is_invalid_record() {
    let mut f = header_file(64);
    f.extend_from_slice(&3u64.to_le_bytes());
    f.extend_from_slice(&[1, 2, 3]);
    let r = EngineState::open(&f, 64);
    assert!(matches!(r, Err(StoreError::InvalidRecord)));
}

#[test]
fn torn_tail_is_dropped_on_open() {
    let mut d = open_disk(Vec::new());
    set(&mut d, b"a", b"1");
    set(&mut d, b"b", b"2");
    let cut = d.file.len() - 3;
    let mut file = d.file.clone();
    file.truncate(cut);
    let e = open_disk(file.clone());
    assert_eq!(get(&e, b"a"), Some(b"1".to_vec()));
    assert_eq!(get(&e, b"b"), None);
    assert_eq!(e.st.file_size() as usize, cut);
    file.truncate(12 + 5);
    let e = open_disk(file);
    assert_eq!(get(&e, b"a"), None);
}

#[test]
fn compacted_size_is_header_plus_frames() {
    let mut d = open_disk(Vec::new());
    set(&mut d, b"a", b"one");
    set(&mut d, b"a", b"two");
    set(&mut d, b"bb", b"three");
    del(&mut d, b"zz");
    compact(&mut d);
    let mut expected: u64 = 12;
    for (_, loc) in d.st.snapshot() {
        expected += 8 + loc.len;
    }
    assert_eq!(d.file.len() as u64, expected);
    assert_eq!(d.st.file_size(), expected);
    assert_eq!(d.st.key_count(), 2);
}

#[test]
fn frame_layout_is_length_then_body() {
    let a = set_record(7, b"k", b"v").unwrap();
    let f = a.frame();
    let body_len = u64::from_le_bytes(f[0..8].try_into().unwrap());
    assert_eq!(body_len as usize, f.len() - 8);
    // timestamp, key length, key, tag, value length, value
    assert_eq!(body_len, 8 + 8 + 1 + 1 + 8 + 1);
    assert_eq!(&f[8..16], &7i64.to_le_bytes());
    assert_eq!(&f[16..24], &1u64.to_le_bytes());
    assert_eq!(f[24], b'k');
    assert_eq!(f[25], 1);
    assert_eq!(f[34], b'v');
    let t = delete_record(-1, b"k").unwrap();
    let g = t.frame();
    assert_eq!(g.len(), 8 + 8 + 8 + 1 + 1);
    assert_eq!(&g[8..16], &(-1i64).to_le_bytes());
    assert_eq!(g[25], 0);
}

#[test]
fn record_round_trip() {
    let a = set_record(-42, &[0, 1, 2], &[9, 8]).unwrap();
    assert_eq!(decode_value(&a.frame()[8..]).unwrap(), Some(vec![9, 8]));
    let t = delete_record(5, &[0, 1, 2]).unwrap();
    assert_eq!(decode_value(&t.frame()[8..]).unwrap(), None);
    let e = set_record(0, b"k", b"").unwrap();
    assert_eq!(decode_value(&e.frame()[8..]).unwrap(), Some(Vec::new()));
}

#[test]
fn oversized_value_is_refused() {
    let big = vec![0u8; 4 * 1024 * 1024 + 1];
    assert!(matches!(set_record(0, b"k", &big), Err(StoreError::TooLarge)));
    let edge = vec![0u8; 4 * 1024 * 1024];
    assert!(set_record(0, b"k", &edge).is_ok());
}

#[test]
fn threshold_rule() {
    assert_eq!(next_threshold(100, 76, 64), 128);
    assert_eq!(next_threshold(100, 75, 64), 64);
    assert_eq!(next_threshold(100, 10, 64), 64);
    assert_eq!(next_threshold(100, 100, u64::MAX - 1), u64::MAX);
    assert_eq!(next_threshold(u64::MAX, u64::MAX, 8), 16);
}

#[test]
fn header_bytes_and_parse() {
    let h = encode_header(0x0102_0304_0506_0708);
    assert_eq!(h, vec![b'K', b'V', b'S', b'1', 8, 7, 6, 5, 4, 3, 2, 1]);
    assert_eq!(kv_store::header::read_header(&h), Ok(0x0102_0304_0506_0708));
}

#[test]
fn appends_after_reopen_keep_latest() {
    let mut d = open_disk(Vec::new());
    set(&mut d, b"k", b"v1");
    let mut d = reopen(d);
    set(&mut d, b"k", b"v2");
    del(&mut d, b"x");
    let d = reopen(d);
    assert_eq!(get(&d, b"k"), Some(b"v2".to_vec()));
}
