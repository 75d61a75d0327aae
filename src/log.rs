//! The record log: framed record bodies after the header, and the replay that
//! rebuilds the index from them.
use vstd::prelude::*;
use crate::bytes::{le_bytes, le_value, u64_from_le, u64_to_le, lemma_le_bytes_len, lemma_le_round_trip, lemma_pow256_8};
use crate::codec::{decode_record, decoded, CodecError, RecordView};
use crate::index::{KeyIndex, LogIndex};

verus! {

/// A body as it is appended: its length in eight little-endian bytes, then
/// the body.
pub open spec fn frame_bytes(body: Seq<u8>) -> Seq<u8> {
    le_bytes(body.len(), 8) + body
}

/// The length word at `pos`.
pub open spec fn len_at(data: Seq<u8>, pos: int) -> int {
    le_value(data.subrange(pos, pos + 8)) as int
}

/// Replays the records of `data` from offset `pos` onto the index `acc`. A
/// length word or a body cut short by the end of the data ends the replay
/// (a torn tail); a body that is not a record makes it fail.
pub open spec fn replay_from(data: Seq<u8>, pos: int, acc: Map<Seq<u8>, LogIndex>) -> Option<
    Map<Seq<u8>, LogIndex>,
>
    decreases data.len() - pos,
{
    if pos < 0 || pos + 8 > data.len() {
        Some(acc)
    } else {
        let l = len_at(data, pos);
        if pos + 8 + l > data.len() {
            Some(acc)
        } else {
            match decoded(data.subrange(pos + 8, pos + 8 + l)) {
                None => None,
                Some(r) => {
                    let loc = LogIndex { pos: (pos + 8) as u64, len: l as u64 };
                    let next = match r.2 {
                        Some(_) => acc.insert(r.1, loc),
                        None => acc.remove(r.1),
                    };
                    replay_from(data, pos + 8 + l, next)
                },
            }
        }
    }
}

/// The index after replaying record `r`, whose body lies at `loc`.
pub open spec fn replay_step(acc: Map<Seq<u8>, LogIndex>, r: RecordView, loc: LogIndex) -> Map<
    Seq<u8>,
    LogIndex,
> {
    match r.2 {
        Some(_) => acc.insert(r.1, loc),
        None => acc.remove(r.1),
    }
}

/// Replays like `replay_from`, but only where the records run exactly to the
/// end of the data, with no torn tail.
pub open spec fn replay_exact(data: Seq<u8>, pos: int, acc: Map<Seq<u8>, LogIndex>) -> Option<
    Map<Seq<u8>, LogIndex>,
>
    decreases data.len() - pos,
{
    if pos < 0 || pos > data.len() {
        None
    } else if pos == data.len() {
        Some(acc)
    } else if pos + 8 > data.len() {
        None
    } else {
        let l = len_at(data, pos);
        if pos + 8 + l > data.len() {
            None
        } else {
            match decoded(data.subrange(pos + 8, pos + 8 + l)) {
                None => None,
                Some(r) => replay_exact(
                    data,
                    pos + 8 + l,
                    replay_step(acc, r, LogIndex { pos: (pos + 8) as u64, len: l as u64 }),
                ),
            }
        }
    }
}

/// A file whose records run to its end replays as exactly.
pub proof fn lemma_exact_is_replay(data: Seq<u8>, pos: int, acc: Map<Seq<u8>, LogIndex>)
    requires
        replay_exact(data, pos, acc) is Some,
    ensures
        replay_from(data, pos, acc) == replay_exact(data, pos, acc),
    decreases data.len() - pos,
{
    if pos < data.len() {
        let l = len_at(data, pos);
        let r = decoded(data.subrange(pos + 8, pos + 8 + l))->Some_0;
        let loc = LogIndex { pos: (pos + 8) as u64, len: l as u64 };
        assert(replay_step(acc, r, loc) == match r.2 {
            Some(_) => acc.insert(r.1, loc),
            None => acc.remove(r.1),
        });
        lemma_exact_is_replay(data, pos + 8 + l, replay_step(acc, r, loc));
    }
}

/// Bytes appended after records that run to the end are replayed after
/// them.
pub proof fn lemma_exact_append(data: Seq<u8>, f: Seq<u8>, pos: int, acc: Map<Seq<u8>, LogIndex>)
    requires
        replay_exact(data, pos, acc) is Some,
    ensures
        replay_exact(data + f, pos, acc) == replay_exact(
            data + f,
            data.len() as int,
            replay_exact(data, pos, acc)->Some_0,
        ),
    decreases data.len() - pos,
{
    if pos < data.len() {
        let d2 = data + f;
        let l = len_at(data, pos);
        assert(d2.subrange(pos, pos + 8) =~= data.subrange(pos, pos + 8));
        assert(d2.subrange(pos + 8, pos + 8 + l) =~= data.subrange(pos + 8, pos + 8 + l));
        let r = decoded(data.subrange(pos + 8, pos + 8 + l))->Some_0;
        let loc = LogIndex { pos: (pos + 8) as u64, len: l as u64 };
        lemma_exact_append(data, f, pos + 8 + l, replay_step(acc, r, loc));
    }
}

/// One frame whose body is a record, appended where the records end.
pub proof fn lemma_exact_frame(data: Seq<u8>, body: Seq<u8>, acc: Map<Seq<u8>, LogIndex>)
    requires
        decoded(body) is Some,
        data.len() + 8 + body.len() <= u64::MAX,
    ensures
        replay_exact(data + frame_bytes(body), data.len() as int, acc) == Some(
            replay_step(
                acc,
                decoded(body)->Some_0,
                LogIndex { pos: (data.len() + 8) as u64, len: body.len() as u64 },
            ),
        ),
{
    let d2 = data + frame_bytes(body);
    let p = data.len() as int;
    lemma_le_bytes_len(body.len(), 8);
    assert(d2.subrange(p, p + 8) =~= le_bytes(body.len(), 8));
    lemma_pow256_8();
    lemma_le_round_trip(body.len(), 8);
    assert(d2.subrange(p + 8, p + 8 + body.len()) =~= body);
    assert(len_at(d2, p) == body.len());
    let loc = LogIndex { pos: (data.len() + 8) as u64, len: body.len() as u64 };
    let next = replay_step(acc, decoded(body)->Some_0, loc);
    assert(d2.len() == p + 8 + body.len());
    assert(replay_exact(d2, p + 8 + body.len(), next) == Some(next));
}

/// Replay from `pos` reads nothing before `from`.
pub proof fn lemma_exact_suffix(d1: Seq<u8>, d2: Seq<u8>, from: int, pos: int, acc: Map<Seq<u8>, LogIndex>)
    requires
        0 <= from <= pos,
        d1.len() == d2.len(),
        from <= d1.len(),
        d1.subrange(from, d1.len() as int) == d2.subrange(from, d2.len() as int),
    ensures
        replay_exact(d1, pos, acc) == replay_exact(d2, pos, acc),
    decreases d1.len() - pos,
{
    let n = d1.len() as int;
    assert forall|i: int| from <= i < n implies d1[i] == d2[i] by {
        assert(d1.subrange(from, n)[i - from] == d2.subrange(from, n)[i - from]);
    }
    if pos < n && pos + 8 <= n {
        assert(d1.subrange(pos, pos + 8) =~= d2.subrange(pos, pos + 8));
        let l = len_at(d1, pos);
        if pos + 8 + l <= n {
            assert(d1.subrange(pos + 8, pos + 8 + l) =~= d2.subrange(pos + 8, pos + 8 + l));
            let r = decoded(d1.subrange(pos + 8, pos + 8 + l));
            if r is Some {
                let loc = LogIndex { pos: (pos + 8) as u64, len: l as u64 };
                lemma_exact_suffix(d1, d2, from, pos + 8 + l, replay_step(acc, r->Some_0, loc));
            }
        }
    }
}

/// The index that the file contents `data` give when opened.
pub open spec fn replay(data: Seq<u8>) -> Option<Map<Seq<u8>, LogIndex>> {
    replay_from(data, 12, Map::empty())
}

/// The bytes of the file that `loc` points at.
pub open spec fn body_at(file: Seq<u8>, loc: LogIndex) -> Seq<u8> {
    file.subrange(loc.pos as int, loc.pos + loc.len)
}

/// `loc` lies inside `file`, after the header, and holds a set of `k`.
pub open spec fn holds_set_of(file: Seq<u8>, loc: LogIndex, k: Seq<u8>) -> bool {
    &&& 12 <= loc.pos
    &&& loc.pos + loc.len <= file.len()
    &&& decoded(body_at(file, loc)) is Some
    &&& decoded(body_at(file, loc))->Some_0.1 == k
    &&& decoded(body_at(file, loc))->Some_0.2 is Some
}

/// Every key of `m` points at a set of that key in `file`.
pub open spec fn all_hold(file: Seq<u8>, m: Map<Seq<u8>, LogIndex>) -> bool {
    forall|k: Seq<u8>| #[trigger] m.contains_key(k) ==> holds_set_of(file, m[k], k)
}

/// Replay keeps each key pointing at a set of that key.
pub proof fn lemma_replay_holds_sets(data: Seq<u8>, pos: int, acc: Map<Seq<u8>, LogIndex>)
    requires
        pos >= 12,
        data.len() <= u64::MAX,
        all_hold(data, acc),
        replay_from(data, pos, acc) is Some,
    ensures
        all_hold(data, replay_from(data, pos, acc)->Some_0),
    decreases data.len() - pos,
{
    if pos + 8 <= data.len() {
        let l = len_at(data, pos);
        if pos + 8 + l <= data.len() {
            let r = decoded(data.subrange(pos + 8, pos + 8 + l))->Some_0;
            let loc = LogIndex { pos: (pos + 8) as u64, len: l as u64 };
            let next = match r.2 {
                Some(_) => acc.insert(r.1, loc),
                None => acc.remove(r.1),
            };
            crate::bytes::lemma_le_value_bound(data.subrange(pos, pos + 8));
            crate::bytes::lemma_pow256_8();
            assert(body_at(data, loc) =~= data.subrange(pos + 8, pos + 8 + l));
            assert forall|k: Seq<u8>| #[trigger] next.contains_key(k) implies holds_set_of(data, next[k], k) by {
                if k != r.1 {
                    assert(acc.contains_key(k));
                }
            }
            lemma_replay_holds_sets(data, pos + 8 + l, next);
        }
    }
}

/// The frame of `body`.
pub fn frame(body: &[u8]) -> (r: Vec<u8>)
    ensures
        r@ == frame_bytes(body@),
{
    let mut out = u64_to_le(body.len() as u64);
    let mut i: usize = 0;
    let ghost head = out@;
    while i < body.len()
        invariant
            i <= body@.len(),
            out@ == head + body@.subrange(0, i as int),
        decreases body@.len() - i,
    {
        out.push(body[i]);
        i = i + 1;
        proof {
            assert(out@ =~= head + body@.subrange(0, i as int));
        }
    }
    assert(body@.subrange(0, body@.len() as int) =~= body@);
    out
}

/// Rebuilds the index from the whole contents of a data file, header
/// included.
/// Also says whether the records ran exactly to the end.
pub fn rebuild_index(data: &[u8]) -> (r: Result<(KeyIndex, bool), CodecError>)
    requires
        data@.len() >= 12,
    ensures
        match r {
            Ok((ix, clean)) => ix.wf() && replay(data@) == Some(ix.view()) && clean == replay_exact(
                data@,
                12,
                Map::empty(),
            ) is Some && (clean ==> replay_exact(data@, 12, Map::empty()) == Some(ix.view())),
            Err(e) => replay(data@) is None && e == CodecError::Invalid,
        },
{
    let n: usize = data.len();
    let mut pos: usize = 12;
    let mut ix = KeyIndex::new();
    while pos <= n && n - pos >= 8
        invariant
            n == data@.len(),
            12 <= pos <= n,
            ix.wf(),
            replay(data@) == replay_from(data@, pos as int, ix.view()),
            replay_exact(data@, 12, Map::empty()) == replay_exact(data@, pos as int, ix.view()),
        decreases n - pos,
    {
        let l: u64 = u64_from_le(data, pos);
        let start: usize = pos + 8;
        if l > (n - start) as u64 {
            return Ok((ix, false));
        }
        let end: usize = start + l as usize;
        let body = slice_range(data, start, end);
        match decode_record(body) {
            Err(e) => {
                return Err(e);
            },
            Ok(rec) => {
                let loc = LogIndex { pos: start as u64, len: l };
                let ghost pre = ix.view();
                proof {
                    assert(replay_step(pre, rec@, loc) == match rec@.2 {
                        Some(_) => pre.insert(rec@.1, loc),
                        None => pre.remove(rec@.1),
                    });
                }
                match rec.value {
                    Some(_) => {
                        ix.insert(rec.key, loc);
                    },
                    None => {
                        ix.remove(rec.key.as_slice());
                    },
                }
                pos = end;
            },
        }
    }
    Ok((ix, pos == n))
}

/// The bytes of `data` from `start` up to `end`.
pub fn slice_range(data: &[u8], start: usize, end: usize) -> (r: &[u8])
    requires
        start <= end <= data@.len(),
    ensures
        r@ == data@.subrange(start as int, end as int),
{
    let (head, _) = data.split_at(end);
    let (_, mid) = head.split_at(start);
    mid
}

} // verus!
