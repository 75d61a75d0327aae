//! The decisions of the storage engine, kept apart from the file handles: what
//! to append for a write, where each live key's latest record lies, when to
//! compact, and how the threshold moves. Each state carries, as a ghost, the
//! bytes that the data file holds, and its invariant ties index and header to
//! them.
use vstd::prelude::*;
use crate::codec::{
    decode_record, decoded, encode_record, lemma_round_trip, record_bytes, record_fits,
    DataFileEntry, RecordView,
};
use crate::header::{encode_header, header_bytes, header_result, read_header, HeaderError};
use crate::index::{KeyIndex, LogIndex};
use crate::log::{all_hold, body_at, frame, frame_bytes, holds_set_of, rebuild_index, replay, replay_exact};
use crate::bytes::{copy_bytes, lemma_le_bytes_len};

verus! {

/// Why the store refused to open a file or to take a write.
#[derive(Clone, Copy, Debug, PartialEq, Eq, Structural)]
pub enum StoreError {
    /// A non-empty file shorter than a header.
    MissingHeader,
    /// A file that does not start with the magic.
    UnsupportedFormat,
    /// A record body in the file that does not decode.
    InvalidRecord,
    /// A key or value longer than the encoding takes.
    TooLarge,
    /// The file would grow past the largest size a `u64` holds.
    SizeOverflow,
}

/// The value of the record at `loc`.
pub open spec fn value_at(file: Seq<u8>, loc: LogIndex) -> Seq<u8> {
    decoded(body_at(file, loc))->Some_0.2->Some_0
}

/// The live contents that an index over `file` denotes.
pub open spec fn contents(file: Seq<u8>, index: Map<Seq<u8>, LogIndex>) -> Map<Seq<u8>, Seq<u8>> {
    Map::new(|k: Seq<u8>| index.contains_key(k), |k: Seq<u8>| value_at(file, index[k]))
}

/// The live contents after the write `r`: a set stores its value, a delete
/// drops its key.
pub open spec fn apply_write(m: Map<Seq<u8>, Seq<u8>>, r: RecordView) -> Map<Seq<u8>, Seq<u8>> {
    match r.2 {
        Some(v) => m.insert(r.1, v),
        None => m.remove(r.1),
    }
}

/// The live contents after the writes `rs`, in order, starting from `m`.
pub open spec fn apply_all(m: Map<Seq<u8>, Seq<u8>>, rs: Seq<RecordView>) -> Map<Seq<u8>, Seq<u8>>
    decreases rs.len(),
{
    if rs.len() == 0 {
        m
    } else {
        apply_write(apply_all(m, rs.drop_last()), rs.last())
    }
}

/// The value of the most recent write of `k` among `rs`: `None` where that
/// write is a delete or where there is none.
pub open spec fn latest_value(rs: Seq<RecordView>, k: Seq<u8>) -> Option<Seq<u8>>
    decreases rs.len(),
{
    if rs.len() == 0 {
        None
    } else if rs.last().1 == k {
        rs.last().2
    } else {
        latest_value(rs.drop_last(), k)
    }
}

/// Over any sequence of sets and deletes from an empty store, a key holds
/// the value of its most recent set, unless a delete followed it.
pub proof fn lemma_latest_write_wins(rs: Seq<RecordView>, k: Seq<u8>)
    ensures
        apply_all(Map::empty(), rs).get(k) == latest_value(rs, k),
    decreases rs.len(),
{
    if rs.len() > 0 {
        lemma_latest_write_wins(rs.drop_last(), k);
    }
}

/// A record that is ready to be appended: its frame, with the key it
/// concerns and whether it sets or deletes.
pub struct Append {
    frame: Vec<u8>,
    key: Vec<u8>,
    is_set: bool,
    record: Ghost<RecordView>,
}

impl Append {
    pub closed spec fn record(&self) -> RecordView {
        self.record@
    }

    pub closed spec fn wf(&self) -> bool {
        &&& record_fits(self.record@)
        &&& self.frame@ == frame_bytes(record_bytes(self.record@))
        &&& self.key@ == self.record@.1
        &&& self.is_set == self.record@.2 is Some
    }

    /// The bytes to append to the data file.
    pub closed spec fn bytes(&self) -> Seq<u8> {
        self.frame@
    }

    /// The bytes to append to the data file.
    pub fn frame(&self) -> (r: &[u8])
        ensures
            r@ == self.bytes(),
    {
        self.frame.as_slice()
    }
}

/// The frame of a record that sets `key` to `value`.
pub fn set_record(tstamp: i64, key: &[u8], value: &[u8]) -> (r: Result<Append, StoreError>)
    ensures
        match r {
            Ok(a) => a.wf() && a.record() == (tstamp, key@, Some(value@)),
            Err(e) => e == StoreError::TooLarge && !record_fits((tstamp, key@, Some(value@))),
        },
{
    let entry = DataFileEntry { tstamp, key: copy_bytes(key), value: Some(copy_bytes(value)) };
    make_append(entry)
}

/// The frame of a tombstone for `key`.
pub fn delete_record(tstamp: i64, key: &[u8]) -> (r: Result<Append, StoreError>)
    ensures
        match r {
            Ok(a) => a.wf() && a.record() == (tstamp, key@, None::<Seq<u8>>),
            Err(e) => e == StoreError::TooLarge && !record_fits((tstamp, key@, None::<Seq<u8>>)),
        },
{
    let entry = DataFileEntry { tstamp, key: copy_bytes(key), value: None };
    make_append(entry)
}

fn make_append(entry: DataFileEntry) -> (r: Result<Append, StoreError>)
    ensures
        match r {
            Ok(a) => a.wf() && a.record() == entry@,
            Err(e) => e == StoreError::TooLarge && !record_fits(entry@),
        },
{
    let ghost rec = entry@;
    match encode_record(&entry) {
        Err(_) => Err(StoreError::TooLarge),
        Ok(body) => {
            let f = frame(body.as_slice());
            let is_set = entry.value.is_some();
            Ok(Append { frame: f, key: entry.key, is_set, record: Ghost(rec) })
        },
    }
}

/// The value that a record body holds: `None` for a tombstone.
pub fn decode_value(body: &[u8]) -> (r: Result<Option<Vec<u8>>, StoreError>)
    ensures
        match r {
            Ok(v) => decoded(body@) matches Some(rec) && match v {
                Some(x) => rec.2 == Some(x@),
                None => rec.2 is None,
            },
            Err(e) => e == StoreError::InvalidRecord && decoded(body@) is None,
        },
{
    match decode_record(body) {
        Ok(rec) => Ok(rec.value),
        Err(_) => Err(StoreError::InvalidRecord),
    }
}

/// The in-memory side of an open data file.
pub struct EngineState {
    pub(crate) index: KeyIndex,
    pub(crate) file_size: u64,
    pub(crate) threshold: u64,
    pub(crate) file: Ghost<Seq<u8>>,
    pub(crate) intact: Ghost<bool>,
}

impl EngineState {
    /// The bytes the data file holds.
    pub closed spec fn file(&self) -> Seq<u8> {
        self.file@
    }

    /// The locators of the live keys.
    pub closed spec fn locators(&self) -> Map<Seq<u8>, LogIndex> {
        self.index.view()
    }

    /// The records of the file run exactly to its end: no torn tail was
    /// found when it was opened.
    pub closed spec fn intact(&self) -> bool {
        self.intact@
    }

    pub closed spec fn size(&self) -> u64 {
        self.file_size
    }

    pub closed spec fn threshold_spec(&self) -> u64 {
        self.threshold
    }

    /// The live keys with their values.
    pub open spec fn view(&self) -> Map<Seq<u8>, Seq<u8>> {
        contents(self.file(), self.locators())
    }

    /// The index points each key at a set of it inside the file, the file
    /// starts with the header of the current threshold, and the tracked size
    /// is the file's length.
    pub closed spec fn wf(&self) -> bool {
        &&& self.index.wf()
        &&& self.file@.len() == self.file_size
        &&& self.file@.len() >= 12
        &&& self.file@.subrange(0, 12) == header_bytes(self.threshold)
        &&& forall|k: Seq<u8>| #[trigger]
            self.index.view().contains_key(k) ==> holds_set_of(self.file@, self.index.view()[k], k)
        &&& self.intact@ ==> replay_exact(self.file@, 12, Map::empty()) == Some(self.index.view())
    }

    /// What the closed views of a state are, for the compaction module.
    pub(crate) proof fn lemma_parts(&self)
        ensures
            self.file() == self.file@,
            self.locators() == self.index.view(),
            self.size() == self.file_size,
            self.threshold_spec() == self.threshold,
            self.intact() == self.intact@,
            self.wf() == (self.index.wf() && self.file@.len() == self.file_size && self.file@.len() >= 12
                && self.file@.subrange(0, 12) == header_bytes(self.threshold) && all_hold(
                self.file@,
                self.index.view(),
            ) && (self.intact@ ==> replay_exact(self.file@, 12, Map::empty()) == Some(
                self.index.view(),
            ))),
    {
    }

    /// The file of an intact state opens again to the same threshold and
    /// the same index: reopening gives back every key with its value.
    pub proof fn lemma_reopen(&self)
        requires
            self.wf(),
            self.intact(),
        ensures
            self.file().len() > 0,
            header_result(self.file()) == Ok::<u64, HeaderError>(self.threshold_spec()),
            replay(self.file()) == Some(self.locators()),
    {
        crate::log::lemma_exact_is_replay(self.file@, 12, Map::empty());
        let f = self.file@;
        let h = header_bytes(self.threshold);
        crate::header::lemma_header_round_trip(self.threshold);
        lemma_le_bytes_len(self.threshold as nat, 8);
        assert(f.subrange(0, 4) =~= h.subrange(0, 4)) by {
            assert(f.subrange(0, 12).subrange(0, 4) =~= f.subrange(0, 4));
        }
        assert(f.subrange(4, 12) =~= h.subrange(4, 12)) by {
            assert(f.subrange(0, 12).subrange(4, 12) =~= f.subrange(4, 12));
        }
    }

    /// The tracked size is the length of the file, and the file opens with
    /// the header of the current threshold.
    pub proof fn lemma_file_shape(&self)
        requires
            self.wf(),
        ensures
            self.size() == self.file().len(),
            self.file().subrange(0, 12) == header_bytes(self.threshold_spec()),
    {
    }

    /// The size of the data file.
    pub fn file_size(&self) -> (r: u64)
        ensures
            r == self.size(),
    {
        self.file_size
    }

    /// The current compaction threshold.
    pub fn threshold(&self) -> (r: u64)
        ensures
            r == self.threshold_spec(),
    {
        self.threshold
    }

    /// Number of live keys.
    pub fn key_count(&self) -> (r: usize)
        requires
            self.wf(),
        ensures
            r == self.view().len(),
    {
        proof {
            self.index.lemma_dom_len();
            assert(self.view().dom() =~= self.locators().dom());
        }
        self.index.len()
    }

    /// Opens the data file whose whole contents are `data`. An empty file
    /// gets a header with `default_threshold`, which is returned for writing;
    /// otherwise the header's threshold stands and the records are replayed.
    pub fn open(data: &[u8], default_threshold: u64) -> (r: Result<
        (EngineState, Option<Vec<u8>>),
        StoreError,
    >)
        ensures
            data@.len() == 0 ==> (r matches Ok((st, Some(h))) && h@ == header_bytes(default_threshold)
                && st.file() == h@ && st.threshold_spec() == default_threshold
                && st.locators() == Map::<Seq<u8>, LogIndex>::empty()),
            data@.len() > 0 && header_result(data@) == Err::<u64, HeaderError>(
                HeaderError::MissingHeader,
            ) ==> r == Err::<(EngineState, Option<Vec<u8>>), StoreError>(StoreError::MissingHeader),
            data@.len() > 0 && header_result(data@) == Err::<u64, HeaderError>(
                HeaderError::UnsupportedFormat,
            ) ==> r == Err::<(EngineState, Option<Vec<u8>>), StoreError>(
                StoreError::UnsupportedFormat,
            ),
            data@.len() > 0 && header_result(data@) is Ok && replay(data@) is None ==> r
                == Err::<(EngineState, Option<Vec<u8>>), StoreError>(StoreError::InvalidRecord),
            data@.len() > 0 && header_result(data@) is Ok && replay(data@) is Some ==> (r matches Ok(
                (st, None),
            ) && st.file() == data@ && Ok::<u64, HeaderError>(st.threshold_spec()) == header_result(
                data@,
            ) && Some(st.locators()) == replay(data@)),
            r matches Ok((st, _)) ==> st.wf() && st.size() == st.file().len(),
            data@.len() == 0 ==> (r matches Ok((st, _)) && st.intact()),
            r matches Ok((st, _)) ==> (st.intact() <==> (data@.len() == 0 || replay_exact(
                data@,
                12,
                Map::empty(),
            ) is Some)),
    {
        if data.len() == 0 {
            let h = encode_header(default_threshold);
            let st = EngineState {
                index: KeyIndex::new(),
                file_size: 12,
                threshold: default_threshold,
                file: Ghost(h@),
                intact: Ghost(true),
            };
            proof {
                assert(st.file@.subrange(0, 12) =~= st.file@);
            }
            return Ok((st, Some(h)));
        }
        let t = match read_header(data) {
            Ok(t) => t,
            Err(HeaderError::MissingHeader) => {
                return Err(StoreError::MissingHeader);
            },
            Err(HeaderError::UnsupportedFormat) => {
                return Err(StoreError::UnsupportedFormat);
            },
        };
        let (index, clean) = match rebuild_index(data) {
            Ok(pair) => pair,
            Err(_) => {
                return Err(StoreError::InvalidRecord);
            },
        };
        proof {
            crate::log::lemma_replay_holds_sets(data@, 12, Map::empty());
            assert(all_hold(data@, index.view()));
            crate::bytes::lemma_pow256_8();
            crate::bytes::lemma_le_value_bound(data@.subrange(4, 12));
            assert(data@.subrange(4, 12).len() == 8);
            assert(header_bytes(t) =~= data@.subrange(0, 12)) by {
                crate::bytes::lemma_le_value_bound(data@.subrange(4, 12));
                crate::bytes::lemma_le_bytes_of_value(data@.subrange(4, 12));
                lemma_le_bytes_len(t as nat, 8);
                assert(data@.subrange(0, 12) =~= data@.subrange(0, 4) + data@.subrange(4, 12));
            }
        }
        let st = EngineState {
            index,
            file_size: data.len() as u64,
            threshold: t,
            file: Ghost(data@),
            intact: Ghost(clean),
        };
        Ok((st, None))
    }

    /// Whether appending `a` keeps the file size within a `u64`.
    pub fn can_append(&self, a: &Append) -> (r: bool)
        ensures
            r == (self.size() + a.bytes().len() <= u64::MAX),
    {
        a.frame.len() as u64 <= u64::MAX - self.file_size
    }

    /// Takes note that the frame of `a` was appended at the end of the data
    /// file: a set points its key at the new body, a delete drops its key.
    /// Returns whether a set brought the file to the compaction threshold.
    pub fn commit(&mut self, a: Append) -> (compact_due: bool)
        requires
            old(self).wf(),
            a.wf(),
            old(self).size() + a.bytes().len() <= u64::MAX,
        ensures
            final(self).wf(),
            final(self).file() == old(self).file() + a.bytes(),
            final(self).size() == old(self).size() + a.bytes().len(),
            final(self).threshold_spec() == old(self).threshold_spec(),
            a.record().2 is Some ==> final(self).locators() == old(self).locators().insert(
                a.record().1,
                LogIndex { pos: (old(self).size() + 8) as u64, len: (a.bytes().len() - 8) as u64 },
            ),
            final(self).view() == apply_write(old(self).view(), a.record()),
            a.record().2 is None ==> final(self).locators() == old(self).locators().remove(
                a.record().1,
            ),
            compact_due == (a.record().2 is Some && final(self).size() >= final(self).threshold_spec()),
    {
        let ghost pre = *self;
        let ghost rec = a.record@;
        let ghost body = record_bytes(rec);
        proof {
            lemma_le_bytes_len(body.len(), 8);
            lemma_round_trip(rec);
        }
        let n = a.frame.len() as u64;
        let loc = LogIndex { pos: self.file_size + 8, len: n - 8 };
        let Append { frame: f, key, is_set, record: _ } = a;
        proof {
            if pre.intact@ {
                crate::log::lemma_exact_append(pre.file@, f@, 12, Map::empty());
                crate::log::lemma_exact_frame(pre.file@, body, pre.index.view());
                assert(crate::log::replay_step(pre.index.view(), rec, loc) == match rec.2 {
                    Some(_) => pre.index.view().insert(rec.1, loc),
                    None => pre.index.view().remove(rec.1),
                });
            }
        }
        self.file = Ghost(self.file@ + f@);
        self.file_size = self.file_size + n;
        if is_set {
            self.index.insert(key, loc);
        } else {
            self.index.remove(key.as_slice());
        }
        proof {
            let fl = self.file@;
            assert(body_at(fl, loc) =~= body);
            assert(fl.subrange(0, 12) =~= pre.file@.subrange(0, 12));
            assert forall|k: Seq<u8>| #[trigger] self.index.view().contains_key(k) implies holds_set_of(
                fl,
                self.index.view()[k],
                k,
            ) by {
                if !(is_set && k == rec.1) {
                    assert(pre.index.view().contains_key(k));
                    let l2 = pre.index.view()[k];
                    assert(body_at(fl, l2) =~= body_at(pre.file@, l2));
                }
            }
            let m = self.view();
            let target = apply_write(pre.view(), rec);
            assert forall|k: Seq<u8>| #[trigger] m.contains_key(k) implies target.contains_key(k) && m[k]
                == target[k] by {
                if !(is_set && k == rec.1) {
                    let l2 = pre.index.view()[k];
                    assert(body_at(fl, l2) =~= body_at(pre.file@, l2));
                }
            }
            assert forall|k: Seq<u8>| #[trigger] target.contains_key(k) implies m.contains_key(k) by {}
            assert(m =~= target);
        }
        is_set && self.file_size >= self.threshold
    }

    /// Every live key with its locator, each once: what a compaction copies.
    pub fn snapshot(&self) -> (r: Vec<(Vec<u8>, LogIndex)>)
        requires
            self.wf(),
        ensures
            r@.len() == self.view().len(),
            forall|i: int| 0 <= i < r@.len() ==> self.locators().contains_key((#[trigger] r@[i]).0@)
                && self.locators()[r@[i].0@] == r@[i].1,
            forall|k: Seq<u8>| #[trigger] self.view().contains_key(k) ==> exists|i: int|
                0 <= i < r@.len() && r@[i].0@ == k,
            forall|i: int, j: int| 0 <= i < j < r@.len() ==> (#[trigger] r@[i].0)@ != (#[trigger] r@[j].0)@,
    {
        proof {
            self.index.lemma_dom_len();
            assert(self.view().dom() =~= self.locators().dom());
        }
        self.index.snapshot()
    }

    /// The locator of `key`'s latest record, if the key is live.
    pub fn lookup(&self, key: &[u8]) -> (r: Option<LogIndex>)
        requires
            self.wf(),
        ensures
            r == self.locators().get(key@),
            r is Some <==> self.view().contains_key(key@),
            r matches Some(loc) ==> loc.pos + loc.len <= self.size(),
    {
        let r = self.index.get(key);
        proof {
            if r is Some {
                assert(holds_set_of(self.file@, self.index.view()[key@], key@));
            }
        }
        r
    }

    /// Reading a live key's locator in the file gives a set of that key to
    /// its value.
    pub proof fn lemma_read_back(&self, k: Seq<u8>)
        requires
            self.wf(),
            self.view().contains_key(k),
        ensures
            self.locators().contains_key(k),
            12 <= self.locators()[k].pos,
            self.locators()[k].pos + self.locators()[k].len <= self.file().len(),
            decoded(body_at(self.file(), self.locators()[k])) == Some(
                (
                    decoded(body_at(self.file(), self.locators()[k]))->Some_0.0,
                    k,
                    Some(self.view()[k]),
                ),
            ),
    {
        assert(holds_set_of(self.file@, self.index.view()[k], k));
    }
}

} // verus!
