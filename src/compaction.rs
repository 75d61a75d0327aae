//! Compaction: a fresh file that holds one record per live key, and the
//! adaptive threshold that keeps compaction from firing on every write when
//! the live set outgrows it.
use vstd::prelude::*;
use crate::header::{encode_header, header_bytes};
use crate::index::{KeyIndex, LogIndex};
use crate::log::{all_hold, body_at, frame, frame_bytes, holds_set_of, replay_exact};
use crate::state::{contents, value_at, EngineState, StoreError};
use crate::bytes::lemma_le_bytes_len;

verus! {

/// The threshold after a compaction that took the file from `old_size` to
/// `new_size` bytes: doubled, saturating, when less than a quarter was
/// reclaimed, else unchanged.
pub open spec fn next_threshold_spec(old_size: u64, new_size: u64, t: u64) -> u64 {
    if new_size * 4 > old_size * 3 {
        if t * 2 > u64::MAX {
            u64::MAX
        } else {
            (t * 2) as u64
        }
    } else {
        t
    }
}

/// The threshold after a compaction from `old_size` to `new_size` bytes.
pub fn next_threshold(old_size: u64, new_size: u64, t: u64) -> (r: u64)
    ensures
        r == next_threshold_spec(old_size, new_size, t),
{
    if (new_size as u128) * 4 > (old_size as u128) * 3 {
        if t > u64::MAX / 2 {
            u64::MAX
        } else {
            t * 2
        }
    } else {
        t
    }
}

/// Bytes that the frames of the keys `ks` take, one each, with the body
/// lengths that `m` gives.
pub open spec fn live_total(m: Map<Seq<u8>, LogIndex>, ks: Seq<Seq<u8>>) -> nat
    decreases ks.len(),
{
    if ks.len() == 0 {
        0
    } else {
        (live_total(m, ks.drop_last()) + 8 + m[ks.last()].len) as nat
    }
}

/// A compacted file being written: the records copied so far, their new
/// index, and the sizes the threshold rule needs.
pub struct Compaction {
    pub(crate) index: KeyIndex,
    pub(crate) size: u64,
    pub(crate) old_size: u64,
    pub(crate) threshold: u64,
    pub(crate) file: Ghost<Seq<u8>>,
    pub(crate) keys: Ghost<Seq<Seq<u8>>>,
}

impl Compaction {
    /// The bytes of the new file so far.
    pub closed spec fn file(&self) -> Seq<u8> {
        self.file@
    }

    /// The keys copied so far, in order.
    pub closed spec fn keys(&self) -> Seq<Seq<u8>> {
        self.keys@
    }

    /// The size of the new file so far.
    pub closed spec fn size(&self) -> u64 {
        self.size
    }

    /// The new index so far.
    pub closed spec fn locators(&self) -> Map<Seq<u8>, LogIndex> {
        self.index.view()
    }

    /// The new file copies live records of `st`, one per key, and nothing
    /// else.
    pub closed spec fn wf_for(&self, st: EngineState) -> bool {
        &&& self.index.wf()
        &&& self.old_size == st.size()
        &&& self.threshold == st.threshold_spec()
        &&& self.file@.len() == self.size
        &&& self.file@.len() >= 12
        &&& self.file@.subrange(0, 12) == header_bytes(self.threshold)
        &&& all_hold(self.file@, self.index.view())
        &&& self.keys@.no_duplicates()
        &&& self.keys@.to_set() == self.index.view().dom()
        &&& forall|k: Seq<u8>| #[trigger]
            self.index.view().contains_key(k) ==> st.view().contains_key(k) && value_at(
                self.file@,
                self.index.view()[k],
            ) == st.view()[k] && self.index.view()[k].len == st.locators()[k].len
        &&& self.size == 12 + live_total(st.locators(), self.keys@)
        &&& replay_exact(self.file@, 12, Map::empty()) == Some(self.index.view())
    }

    /// Copies the record body of `key`, read from the live file, into the
    /// new file. Returns the frame to append to the new file.
    pub fn add(&mut self, st: &EngineState, key: Vec<u8>, body: &[u8]) -> (r: Result<Vec<u8>, StoreError>)
        requires
            st.wf(),
            old(self).wf_for(*st),
            st.locators().contains_key(key@),
            !old(self).keys().contains(key@),
            body@ == body_at(st.file(), st.locators()[key@]),
        ensures
            match r {
                Ok(f) => f@ == frame_bytes(body@) && final(self).wf_for(*st) && final(self).file()
                    == old(self).file() + f@ && final(self).keys() == old(self).keys().push(key@),
                Err(e) => e == StoreError::SizeOverflow && *final(self) == *old(self),
            },
            r is Err <==> old(self).size() + 8 + body@.len() > u64::MAX,
    {
        let n = body.len() as u64;
        if self.size > u64::MAX - 8 || n > u64::MAX - 8 - self.size {
            return Err(StoreError::SizeOverflow);
        }
        let ghost pre = *self;
        let ghost k = key@;
        let f = frame(body);
        let loc = LogIndex { pos: self.size + 8, len: n };
        proof {
            st.lemma_read_back(k);
            lemma_le_bytes_len(body@.len(), 8);
        }
        proof {
            let r = crate::codec::decoded(body@)->Some_0;
            crate::log::lemma_exact_append(pre.file@, f@, 12, Map::empty());
            crate::log::lemma_exact_frame(pre.file@, body@, pre.index.view());
            assert(crate::log::replay_step(pre.index.view(), r, loc) == pre.index.view().insert(k, loc));
        }
        self.file = Ghost(self.file@ + f@);
        self.size = self.size + 8 + n;
        self.keys = Ghost(self.keys@.push(k));
        self.index.insert(key, loc);
        proof {
            let fl = self.file@;
            assert(body_at(fl, loc) =~= body@);
            assert(fl.subrange(0, 12) =~= pre.file@.subrange(0, 12));
            assert forall|k2: Seq<u8>| #[trigger] self.index.view().contains_key(k2) implies holds_set_of(
                fl,
                self.index.view()[k2],
                k2,
            ) && st.view().contains_key(k2) && value_at(fl, self.index.view()[k2]) == st.view()[k2]
                && self.index.view()[k2].len == st.locators()[k2].len by {
                if k2 != k {
                    assert(pre.index.view().contains_key(k2));
                    let l2 = pre.index.view()[k2];
                    assert(body_at(fl, l2) =~= body_at(pre.file@, l2));
                }
            }
            assert(self.keys@.drop_last() =~= pre.keys@);
            assert(body@.len() == st.locators()[k].len);
            assert(live_total(st.locators(), self.keys@) == live_total(st.locators(), pre.keys@) + 8 + n);
            assert(self.keys@.to_set() =~= self.index.view().dom()) by {
                assert forall|x: Seq<u8>| self.keys@.to_set().contains(x) implies self.index.view().dom().contains(x) by {
                    let i = choose|i: int| 0 <= i < self.keys@.len() && self.keys@[i] == x;
                    if i < pre.keys@.len() {
                        assert(pre.keys@[i] == x);
                        assert(pre.keys@.to_set().contains(x));
                    }
                }
                assert forall|x: Seq<u8>| self.index.view().dom().contains(x) implies self.keys@.to_set().contains(x) by {
                    if x != k {
                        assert(pre.keys@.to_set().contains(x));
                        let i = choose|i: int| 0 <= i < pre.keys@.len() && pre.keys@[i] == x;
                        assert(self.keys@[i] == x);
                    } else {
                        assert(self.keys@[self.keys@.len() - 1] == x);
                    }
                }
            }
            assert(self.keys@.no_duplicates()) by {
                assert forall|i: int, j: int| 0 <= i < self.keys@.len() && 0 <= j < self.keys@.len() && i != j
                    implies self.keys@[i] != self.keys@[j] by {
                    if i < pre.keys@.len() && j < pre.keys@.len() {
                    } else if i < pre.keys@.len() {
                        assert(pre.keys@.contains(pre.keys@[i]));
                    } else if j < pre.keys@.len() {
                        assert(pre.keys@.contains(pre.keys@[j]));
                    }
                }
            }
        }
        Ok(f)
    }
}

impl EngineState {
    /// Starts a compaction of this state. Returns it with the header that
    /// opens the new file.
    pub fn begin_compaction(&self) -> (r: (Compaction, Vec<u8>))
        requires
            self.wf(),
        ensures
            r.0.wf_for(*self),
            r.0.keys() == Seq::<Seq<u8>>::empty(),
            r.1@ == header_bytes(self.threshold_spec()),
            r.0.file() == r.1@,
    {
        let h = encode_header(self.threshold());
        let c = Compaction {
            index: KeyIndex::new(),
            size: 12,
            old_size: self.file_size(),
            threshold: self.threshold(),
            file: Ghost(h@),
            keys: Ghost(Seq::empty()),
        };
        proof {
            assert(c.index.view() =~= Map::<Seq<u8>, LogIndex>::empty());
        }
        proof {
            assert(c.file@.subrange(0, 12) =~= c.file@);
            assert(c.keys@.to_set() =~= c.index.view().dom());
        }
        (c, h)
    }

    /// Puts the compacted file in place of the live one, once it has been
    /// renamed over it, and applies the threshold rule. Returns the new
    /// threshold where it changed, for the header to be rewritten.
    pub fn install(&mut self, c: Compaction) -> (persist: Option<u64>)
        requires
            old(self).wf(),
            c.wf_for(*old(self)),
            c.keys().to_set() == old(self).view().dom(),
        ensures
            final(self).wf(),
            final(self).intact(),
            final(self).view() == old(self).view(),
            final(self).locators() == c.locators(),
            c.keys().no_duplicates(),
            final(self).size() == final(self).file().len(),
            final(self).size() == 12 + live_total(old(self).locators(), c.keys()),
            final(self).threshold_spec() == next_threshold_spec(
                old(self).size(),
                final(self).size(),
                old(self).threshold_spec(),
            ),
            persist == (if final(self).threshold_spec() != old(self).threshold_spec() {
                Some(final(self).threshold_spec())
            } else {
                None::<u64>
            }),
            final(self).file() == header_bytes(final(self).threshold_spec()) + c.file().subrange(
                12,
                c.file().len() as int,
            ),
    {
        let ghost pre = *self;
        proof {
            pre.lemma_parts();
        }
        let t = next_threshold(self.file_size, c.size, self.threshold);
        let ghost nf = header_bytes(t) + c.file@.subrange(12, c.file@.len() as int);
        proof {
            lemma_le_bytes_len(t as nat, 8);
            assert(nf.subrange(0, 12) =~= header_bytes(t));
            assert forall|k: Seq<u8>| #[trigger] c.index.view().contains_key(k) implies holds_set_of(
                nf,
                c.index.view()[k],
                k,
            ) && value_at(nf, c.index.view()[k]) == value_at(c.file@, c.index.view()[k]) by {
                let l = c.index.view()[k];
                assert(body_at(nf, l) =~= body_at(c.file@, l));
            }
            let m = contents(nf, c.index.view());
            assert(m.dom() =~= pre.view().dom()) by {
                assert(c.keys@.to_set() == c.index.view().dom());
            }
            assert forall|k: Seq<u8>| #[trigger] m.contains_key(k) implies m[k] == pre.view()[k] by {}
            assert(m =~= pre.view());
            assert(nf.subrange(12, nf.len() as int) =~= c.file@.subrange(12, c.file@.len() as int));
            crate::log::lemma_exact_suffix(nf, c.file@, 12, 12, Map::empty());
        }
        let changed = t != self.threshold;
        let Compaction { index, size, old_size: _, threshold: _, file: _, keys: _ } = c;
        self.index = index;
        self.file_size = size;
        self.threshold = t;
        self.file = Ghost(nf);
        self.intact = Ghost(true);
        proof {
            self.lemma_parts();
        }
        if changed {
            Some(t)
        } else {
            None
        }
    }
}

} // verus!
