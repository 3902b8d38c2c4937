//! The log-structured storage engine.
//!
//! The store holds a list of append-only segments, an in-memory index
//! mapping each live key to the segment, offset and length of its latest
//! `Set` record, and a counter of stale bytes. The invariant ties all three
//! together: replaying every segment in id order rebuilds exactly the
//! current index and stale count, and every index entry points at bytes
//! that parse to a `Set` record for that key. Reading segment files in and
//! writing them back out is the caller's concern; the engine's own state is
//! the byte-accurate image of those files.

use vstd::prelude::*;

use crate::codec::{
    cmd_json, encode_command, lemma_parse_cmd_enc, lemma_parse_cmd_len, lemma_parse_cmd_stable,
    parse_cmd, parse_command,
};
use crate::command::{Command, CommandV};
use crate::err::KvsError;
use crossbeam_skiplist::SkipMap;

verus! {

/// Roll to a fresh segment once the active one grows past this many bytes.
pub const MAX_FILE_SIZE: u64 = 1024 * 2048;

/// Compact once this many stale bytes have accumulated.
pub const MAX_INACTIVE_DATA_SIZE: u64 = 1024 * 2048;

/// One log segment: the numeric id from its `<id>.log` name, and its bytes.
pub struct Segment {
    pub file_id: u64,
    pub data: Vec<u8>,
}

/// Where the latest live `Set` record for a key sits: segment id, byte
/// offset of the record's first byte, and the record's length in bytes.
#[derive(Clone, Copy, PartialEq, Eq, Structural, Debug)]
pub struct IndexEntry {
    pub file_id: u64,
    pub offset: u64,
    pub len: u64,
}

impl IndexEntry {
    /// Build an entry from a segment id and the cursor positions before and
    /// after the record was written.
    pub fn new(file_id: u64, offset: u64, end: u64) -> (e: IndexEntry)
        requires
            offset <= end,
        ensures
            e == (IndexEntry { file_id, offset, len: (end - offset) as u64 }),
    {
        IndexEntry { file_id, offset, len: end - offset }
    }
}

#[verifier::external_type_specification]
#[verifier::external_body]
#[verifier::reject_recursive_types(K)]
#[verifier::reject_recursive_types(V)]
pub struct ExSkipMap<K, V>(SkipMap<K, V>);

/// What the concurrent index holds: the mapping from key to entry.
pub uninterp spec fn skipmap_view(m: SkipMap<String, IndexEntry>) -> Map<Seq<char>, IndexEntry>;

/// The mapping a fresh index holds: nothing.
pub open spec fn empty_index() -> Map<Seq<char>, IndexEntry> {
    Map::empty()
}

/// Relies on crossbeam_skiplist::SkipMap::new: a fresh map holds nothing.
#[verifier::external_body]
fn skipmap_new() -> (res: SkipMap<String, IndexEntry>)
    ensures
        skipmap_view(res) == empty_index(),
{
    SkipMap::new()
}

/// Relies on crossbeam_skiplist::SkipMap::get: returns the entry stored
/// under the key, if any.
#[verifier::external_body]
fn skipmap_get(m: &SkipMap<String, IndexEntry>, key: &String) -> (r: Option<IndexEntry>)
    ensures
        r == if skipmap_view(*m).dom().contains(key@) {
            Some(skipmap_view(*m)[key@])
        } else {
            None::<IndexEntry>
        },
{
    m.get(key).map(|e| *e.value())
}

/// Relies on crossbeam_skiplist::SkipMap::insert: maps the key to the
/// value, superseding any earlier entry for it.
#[verifier::external_body]
fn skipmap_insert(m: &mut SkipMap<String, IndexEntry>, key: String, value: IndexEntry)
    ensures
        skipmap_view(*final(m)) == skipmap_view(*old(m)).insert(key@, value),
{
    m.insert(key, value);
}

/// Relies on crossbeam_skiplist::SkipMap::remove: removes and returns the
/// entry stored under the key, if any.
#[verifier::external_body]
fn skipmap_remove(m: &mut SkipMap<String, IndexEntry>, key: &String) -> (r: Option<IndexEntry>)
    ensures
        skipmap_view(*final(m)) == skipmap_view(*old(m)).remove(key@),
        r == if skipmap_view(*old(m)).dom().contains(key@) {
            Some(skipmap_view(*old(m))[key@])
        } else {
            None::<IndexEntry>
        },
{
    m.remove(key).map(|e| *e.value())
}

/// Relies on crossbeam_skiplist::SkipMap::iter: a snapshot that yields
/// every entry exactly once.
#[verifier::external_body]
fn skipmap_entries(m: &SkipMap<String, IndexEntry>) -> (r: Vec<(String, IndexEntry)>)
    ensures
        forall|i: int|
            0 <= i < r@.len() ==> skipmap_view(*m).contains_pair(#[trigger] r@[i].0@, r@[i].1),
        forall|i: int, j: int| 0 <= i < j < r@.len() ==> r@[i].0@ != r@[j].0@,
        forall|k: Seq<char>|
            #[trigger] skipmap_view(*m).dom().contains(k) ==> exists|i: int|
                0 <= i < r@.len() && r@[i].0@ == k,
{
    m.iter().map(|e| (e.key().clone(), *e.value())).collect()
}

/// Addition that pegs at the largest representable count instead of
/// wrapping.
pub open spec fn sat_add_u64(a: u64, b: u64) -> u64 {
    if a + b > u64::MAX {
        u64::MAX
    } else {
        (a + b) as u64
    }
}

fn sat_add(a: u64, b: u64) -> (r: u64)
    ensures
        r == sat_add_u64(a, b),
{
    if a > u64::MAX - b {
        u64::MAX
    } else {
        a + b
    }
}

/// The state rebuilt by replaying records: the index and the stale-byte
/// count.
pub ghost struct RState {
    pub index: Map<Seq<char>, IndexEntry>,
    pub stale: u64,
}

/// How one record changes the replay state. A `Set` supersedes any earlier
/// record for its key, whose length turns stale; a `Remove` drops the key
/// and stales the record it removed.
pub open spec fn rstep(st: RState, fid: u64, off: u64, clen: u64, c: CommandV) -> RState {
    match c {
        CommandV::Put { key, .. } => RState {
            index: st.index.insert(key, IndexEntry { file_id: fid, offset: off, len: clen }),
            stale: if st.index.dom().contains(key) {
                sat_add_u64(st.stale, st.index[key].len)
            } else {
                st.stale
            },
        },
        CommandV::Rm { key } => RState {
            index: st.index.remove(key),
            stale: if st.index.dom().contains(key) {
                sat_add_u64(st.stale, st.index[key].len)
            } else {
                st.stale
            },
        },
    }
}

/// Replay the records of one segment's bytes, starting at byte `off`.
/// `None` when the bytes do not parse as a stream of records.
pub open spec fn replay_data(fid: u64, data: Seq<u8>, off: int, st: RState) -> Option<RState>
    decreases data.len() - off,
    when 0 <= off <= data.len() && data.len() <= u64::MAX
{
    if off == data.len() {
        Some(st)
    } else {
        match parse_cmd(data.skip(off)) {
            Some((c, n)) => if 1 <= n && off + n <= data.len() {
                replay_data(fid, data, off + n, rstep(st, fid, off as u64, n as u64, c))
            } else {
                None
            },
            None => None,
        }
    }
}

/// Segment ids strictly increase left to right.
pub open spec fn ids_sorted(segs: Seq<Segment>) -> bool {
    forall|i: int, j: int|
        0 <= i < j < segs.len() ==> #[trigger] segs[i].file_id < #[trigger] segs[j].file_id
}

/// Replay a run of segments, in order, from `st`.
pub open spec fn replay_segs(segs: Seq<Segment>, st: RState) -> Option<RState>
    decreases segs.len(),
{
    if segs.len() == 0 {
        Some(st)
    } else {
        match replay_data(segs[0].file_id, segs[0].data@, 0, st) {
            Some(st1) => replay_segs(segs.skip(1), st1),
            None => None,
        }
    }
}

/// Replay a whole store from nothing.
pub open spec fn replay_all(segs: Seq<Segment>) -> Option<RState> {
    replay_segs(segs, RState { index: Map::empty(), stale: 0 })
}

/// Some segment carries this id.
pub open spec fn has_seg(segs: Seq<Segment>, fid: u64) -> bool {
    exists|i: int| 0 <= i < segs.len() && #[trigger] segs[i].file_id == fid
}

/// The bytes of the first segment carrying this id.
pub open spec fn seg_data(segs: Seq<Segment>, fid: u64) -> Seq<u8>
    decreases segs.len(),
{
    if segs.len() == 0 {
        Seq::empty()
    } else if segs[0].file_id == fid {
        segs[0].data@
    } else {
        seg_data(segs.skip(1), fid)
    }
}

/// The entry points into this segment's bytes at a record that parses as
/// `Set` for exactly this key.
pub open spec fn entry_in_seg(data: Seq<u8>, k: Seq<char>, e: IndexEntry) -> bool {
    &&& e.offset + e.len <= data.len()
    &&& 1 <= e.len
    &&& match parse_cmd(data.subrange(e.offset as int, e.offset + e.len)) {
        Some((c, n)) => n == e.len && (c matches CommandV::Put { key, .. } && key == k),
        None => false,
    }
}

/// The value carried by the record an entry points at.
pub open spec fn entry_value(data: Seq<u8>, e: IndexEntry) -> Seq<char> {
    match parse_cmd(data.subrange(e.offset as int, e.offset + e.len)) {
        Some((c, n)) => match c {
            CommandV::Put { value, .. } => value,
            CommandV::Rm { .. } => Seq::empty(),
        },
        None => Seq::empty(),
    }
}

/// The entry is backed by an existing segment and points at a live `Set`
/// record for its key.
pub open spec fn entry_ok(segs: Seq<Segment>, k: Seq<char>, e: IndexEntry) -> bool {
    has_seg(segs, e.file_id) && entry_in_seg(seg_data(segs, e.file_id), k, e)
}

/// Appending a new segment leaves every present id's bytes alone, and a
/// fresh id's bytes are those of the new segment.
pub proof fn lemma_seg_data_push(segs: Seq<Segment>, s: Segment)
    ensures
        forall|fid: u64|
            has_seg(segs, fid) ==> #[trigger] seg_data(segs.push(s), fid) == seg_data(segs, fid)
                && has_seg(segs.push(s), fid),
        !has_seg(segs, s.file_id) ==> seg_data(segs.push(s), s.file_id) == s.data@,
        has_seg(segs.push(s), s.file_id),
    decreases segs.len(),
{
    if segs.len() == 0 {
        assert forall|fid: u64| has_seg(segs, fid) implies #[trigger] seg_data(segs.push(s), fid)
            == seg_data(segs, fid) && has_seg(segs.push(s), fid) by {
            let i = choose|i: int| 0 <= i < segs.len() && #[trigger] segs[i].file_id == fid;
            assert(false);
        }
        assert(segs.push(s)[0] == s);
        assert(seg_data(segs.push(s), s.file_id) == s.data@);
        assert(segs.push(s)[0].file_id == s.file_id);
    } else {
        lemma_seg_data_push(segs.skip(1), s);
        assert(segs.push(s).skip(1) =~= segs.skip(1).push(s));
        assert(segs.push(s)[0] == segs[0]);
        assert forall|fid: u64| has_seg(segs, fid) implies #[trigger] seg_data(segs.push(s), fid)
            == seg_data(segs, fid) && has_seg(segs.push(s), fid) by {
            if segs[0].file_id == fid {
                assert(seg_data(segs.push(s), fid) == segs[0].data@);
                assert(seg_data(segs, fid) == segs[0].data@);
                assert(segs.push(s)[0].file_id == fid);
            } else {
                let i = choose|i: int| 0 <= i < segs.len() && #[trigger] segs[i].file_id == fid;
                assert(segs.skip(1)[i - 1].file_id == fid);
                assert(has_seg(segs.skip(1), fid));
                // fire the induction hypothesis at this id
                assert(seg_data(segs.skip(1).push(s), fid) == seg_data(segs.skip(1), fid));
                assert(has_seg(segs.skip(1).push(s), fid));
                assert(seg_data(segs.push(s), fid) == seg_data(segs.push(s).skip(1), fid));
                assert(seg_data(segs, fid) == seg_data(segs.skip(1), fid));
                let j = choose|j: int|
                    0 <= j < segs.skip(1).push(s).len() && #[trigger] segs.skip(1).push(
                        s,
                    )[j].file_id == fid;
                assert(segs.push(s)[j + 1].file_id == fid);
            }
        }
        if !has_seg(segs, s.file_id) {
            assert(!has_seg(segs.skip(1), s.file_id)) by {
                if has_seg(segs.skip(1), s.file_id) {
                    let i = choose|i: int|
                        0 <= i < segs.skip(1).len() && #[trigger] segs.skip(1)[i].file_id
                            == s.file_id;
                    assert(segs[i + 1].file_id == s.file_id);
                }
            }
            assert(segs[0].file_id != s.file_id) by {
                if segs[0].file_id == s.file_id {
                    assert(has_seg(segs, s.file_id));
                }
            }
            assert(seg_data(segs.push(s), s.file_id) == seg_data(segs.push(s).skip(1), s.file_id));
            assert(seg_data(segs.skip(1).push(s), s.file_id) == s.data@);
        }
        assert(has_seg(segs.push(s), s.file_id)) by {
            assert(segs.push(s)[segs.len() as int].file_id == s.file_id);
        }
    }
}

/// Under sorted ids, the last segment's id appears nowhere before it.
pub proof fn lemma_last_id_fresh(segs: Seq<Segment>)
    requires
        ids_sorted(segs),
        segs.len() >= 1,
    ensures
        !has_seg(segs.take(segs.len() - 1), segs.last().file_id),
{
    let pre = segs.take(segs.len() - 1);
    if has_seg(pre, segs.last().file_id) {
        let i = choose|i: int|
            0 <= i < pre.len() && #[trigger] pre[i].file_id == segs.last().file_id;
        assert(segs[i].file_id < segs[segs.len() - 1].file_id);
    }
}

/// A sorted run stays sorted without its head.
pub proof fn lemma_ids_sorted_skip(segs: Seq<Segment>)
    requires
        ids_sorted(segs),
        segs.len() >= 1,
    ensures
        ids_sorted(segs.skip(1)),
{
    assert forall|i: int, j: int| 0 <= i < j < segs.skip(1).len() implies #[trigger] segs.skip(
        1,
    )[i].file_id < #[trigger] segs.skip(1)[j].file_id by {
        assert(segs[i + 1].file_id < segs[j + 1].file_id);
    }
}

/// Each position's bytes are what looking its id up finds, under sorted
/// ids.
pub proof fn lemma_seg_data_at(segs: Seq<Segment>, i: int)
    requires
        ids_sorted(segs),
        0 <= i < segs.len(),
    ensures
        has_seg(segs, segs[i].file_id),
        seg_data(segs, segs[i].file_id) == segs[i].data@,
    decreases i,
{
    assert(has_seg(segs, segs[i].file_id)) by {
        assert(segs[i].file_id == segs[i].file_id);
    }
    if i == 0 {
    } else {
        assert(segs[0].file_id < segs[i].file_id);
        lemma_ids_sorted_skip(segs);
        lemma_seg_data_at(segs.skip(1), i - 1);
        assert(segs.skip(1)[i - 1] == segs[i]);
    }
}

/// Appending one canonical record to a segment's bytes extends its replay
/// by exactly that record's step.
pub proof fn lemma_replay_extend(
    fid: u64,
    data: Seq<u8>,
    enc: Seq<u8>,
    c: CommandV,
    off: int,
    st: RState,
)
    requires
        0 <= off <= data.len(),
        data.len() + enc.len() <= u64::MAX,
        replay_data(fid, data, off, st) is Some,
        parse_cmd(enc) == Some((c, enc.len() as int)),
        enc.len() >= 1,
    ensures
        replay_data(fid, data + enc, off, st) == Some(
            rstep(
                replay_data(fid, data, off, st)->Some_0,
                fid,
                data.len() as u64,
                enc.len() as u64,
                c,
            ),
        ),
    decreases data.len() - off,
{
    let d2 = data + enc;
    if off == data.len() {
        assert(d2.skip(off) =~= enc);
        let stepped = rstep(st, fid, data.len() as u64, enc.len() as u64, c);
        assert(replay_data(fid, d2, off + enc.len(), stepped) == Some(stepped));
        assert(replay_data(fid, d2, off, st) == Some(stepped));
    } else {
        let (c0, n) = parse_cmd(data.skip(off))->Some_0;
        lemma_parse_cmd_len(data.skip(off));
        assert(d2.skip(off).take(n) =~= data.skip(off).take(n));
        lemma_parse_cmd_stable(data.skip(off), d2.skip(off));
        lemma_replay_extend(fid, data, enc, c, off + n, rstep(st, fid, off as u64, n as u64, c0));
    }
}

/// Replaying a run of segments is replaying all but the last, then the
/// last.
pub proof fn lemma_replay_snoc(segs: Seq<Segment>, st: RState)
    requires
        segs.len() >= 1,
    ensures
        replay_segs(segs, st) == (match replay_segs(segs.take(segs.len() - 1), st) {
            Some(st1) => replay_data(segs.last().file_id, segs.last().data@, 0, st1),
            None => None,
        }),
    decreases segs.len(),
{
    let pre = segs.take(segs.len() - 1);
    if segs.len() == 1 {
        assert(pre =~= Seq::<Segment>::empty());
        assert(segs.skip(1) =~= Seq::<Segment>::empty());
    } else {
        assert(pre[0] == segs[0]);
        if replay_data(segs[0].file_id, segs[0].data@, 0, st) is Some {
            let st1 = replay_data(segs[0].file_id, segs[0].data@, 0, st)->Some_0;
            lemma_replay_snoc(segs.skip(1), st1);
            assert(segs.skip(1).take(segs.skip(1).len() - 1) =~= pre.skip(1));
            assert(segs.skip(1).last() == segs.last());
        }
    }
}

/// If some segment's bytes fail to replay after the ones before it
/// succeeded, the whole run fails to replay.
pub proof fn lemma_replay_fail(segs: Seq<Segment>, st: RState, i: int)
    requires
        0 <= i < segs.len(),
        replay_segs(segs.take(i), st) is Some,
        replay_data(
            segs[i].file_id,
            segs[i].data@,
            0,
            replay_segs(segs.take(i), st)->Some_0,
        ) is None,
    ensures
        replay_segs(segs, st) is None,
    decreases i,
{
    if i == 0 {
        assert(segs.take(0) =~= Seq::<Segment>::empty());
    } else {
        assert(segs.take(i)[0] == segs[0]);
        assert(replay_data(segs[0].file_id, segs[0].data@, 0, st) is Some);
        let st1 = replay_data(segs[0].file_id, segs[0].data@, 0, st)->Some_0;
        assert(segs.skip(1).take(i - 1) =~= segs.take(i).skip(1));
        assert(segs.skip(1)[i - 1] == segs[i]);
        lemma_replay_fail(segs.skip(1), st1, i - 1);
    }
}

/// Appending one canonical record to the active (last) segment: ids stay
/// sorted, the replay gains exactly that record's step, every existing
/// entry keeps pointing at the same bytes, and, for a `Set`, the record
/// just appended backs a valid entry carrying its value.
pub proof fn lemma_append_active(
    segs0: Seq<Segment>,
    segs1: Seq<Segment>,
    enc: Seq<u8>,
    c: CommandV,
    st0: RState,
)
    requires
        segs0.len() >= 1,
        ids_sorted(segs0),
        segs1.len() == segs0.len(),
        forall|i: int| 0 <= i < segs0.len() - 1 ==> segs1[i] == segs0[i],
        segs1.last().file_id == segs0.last().file_id,
        segs1.last().data@ == segs0.last().data@ + enc,
        segs1.last().data@.len() <= u64::MAX,
        replay_all(segs0) == Some(st0),
        parse_cmd(enc) == Some((c, enc.len() as int)),
        enc.len() >= 1,
    ensures
        ids_sorted(segs1),
        replay_all(segs1) == Some(
            rstep(
                st0,
                segs0.last().file_id,
                segs0.last().data@.len() as u64,
                enc.len() as u64,
                c,
            ),
        ),
        forall|k: Seq<char>, e: IndexEntry|
            #[trigger] entry_ok(segs0, k, e) ==> entry_ok(segs1, k, e) && entry_value(
                seg_data(segs1, e.file_id),
                e,
            ) == entry_value(seg_data(segs0, e.file_id), e),
        match c {
            CommandV::Put { key, value } => {
                let ne = IndexEntry {
                    file_id: segs0.last().file_id,
                    offset: segs0.last().data@.len() as u64,
                    len: enc.len() as u64,
                };
                entry_ok(segs1, key, ne) && entry_value(seg_data(segs1, ne.file_id), ne) == value
            },
            CommandV::Rm { .. } => true,
        },
{
    let n = segs0.len() as int;
    let pre = segs0.take(n - 1);
    let fid = segs0.last().file_id;
    let len0 = segs0.last().data@.len() as int;
    let init = RState { index: Map::empty(), stale: 0 };
    assert(segs0 =~= pre.push(segs0.last()));
    assert(segs1 =~= pre.push(segs1.last()));
    assert(ids_sorted(segs1)) by {
        assert forall|i: int, j: int| 0 <= i < j < segs1.len() implies #[trigger] segs1[i].file_id
            < #[trigger] segs1[j].file_id by {
            assert(segs1[i].file_id == segs0[i].file_id);
            assert(segs1[j].file_id == segs0[j].file_id);
            assert(segs0[i].file_id < segs0[j].file_id);
        }
    }
    lemma_last_id_fresh(segs0);
    lemma_seg_data_push(pre, segs0.last());
    lemma_seg_data_push(pre, segs1.last());
    lemma_replay_snoc(segs0, init);
    let stp = replay_segs(pre, init)->Some_0;
    lemma_replay_extend(fid, segs0.last().data@, enc, c, 0, stp);
    lemma_replay_snoc(segs1, init);
    assert(segs1.take(segs1.len() - 1) =~= pre);
    assert(seg_data(segs0, fid) == segs0.last().data@);
    assert(seg_data(segs1, fid) == segs1.last().data@);
    assert forall|k: Seq<char>, e: IndexEntry| #[trigger] entry_ok(segs0, k, e) implies entry_ok(
        segs1,
        k,
        e,
    ) && entry_value(seg_data(segs1, e.file_id), e) == entry_value(
        seg_data(segs0, e.file_id),
        e,
    ) by {
        if e.file_id == fid {
            assert((segs0.last().data@ + enc).subrange(e.offset as int, e.offset + e.len)
                =~= segs0.last().data@.subrange(e.offset as int, e.offset + e.len));
        } else {
            let i = choose|i: int| 0 <= i < segs0.len() && #[trigger] segs0[i].file_id == e.file_id;
            assert(i < n - 1) by {
                if i == n - 1 {
                    assert(segs0[i].file_id == fid);
                }
            }
            assert(has_seg(pre, e.file_id)) by {
                assert(pre[i].file_id == e.file_id);
            }
            assert(seg_data(segs0, e.file_id) == seg_data(pre, e.file_id));
            assert(seg_data(segs1, e.file_id) == seg_data(pre, e.file_id));
        }
    }
    match c {
        CommandV::Put { key, value } => {
            assert(segs1.last().data@.subrange(len0, len0 + enc.len()) =~= enc);
        },
        CommandV::Rm { .. } => {},
    }
}

/// Opening a fresh empty segment after the last one: replay and every
/// entry are untouched.
pub proof fn lemma_push_fresh(segs0: Seq<Segment>, fresh: Segment, st0: RState)
    requires
        segs0.len() >= 1,
        ids_sorted(segs0),
        fresh.file_id > segs0.last().file_id,
        fresh.data@.len() == 0,
        replay_all(segs0) == Some(st0),
    ensures
        ids_sorted(segs0.push(fresh)),
        segs0.push(fresh).last() == fresh,
        replay_all(segs0.push(fresh)) == Some(st0),
        forall|k: Seq<char>, e: IndexEntry|
            #[trigger] entry_ok(segs0, k, e) ==> entry_ok(segs0.push(fresh), k, e) && entry_value(
                seg_data(segs0.push(fresh), e.file_id),
                e,
            ) == entry_value(seg_data(segs0, e.file_id), e),
{
    let init = RState { index: Map::empty(), stale: 0 };
    let segs1 = segs0.push(fresh);
    assert(ids_sorted(segs1)) by {
        assert forall|i: int, j: int| 0 <= i < j < segs1.len() implies #[trigger] segs1[i].file_id
            < #[trigger] segs1[j].file_id by {
            if j < segs0.len() {
                assert(segs0[i].file_id < segs0[j].file_id);
            } else {
                assert(segs1[j] == fresh);
                if i < segs0.len() - 1 {
                    assert(segs0[i].file_id < segs0[segs0.len() - 1].file_id);
                }
            }
        }
    }
    lemma_seg_data_push(segs0, fresh);
    lemma_replay_snoc(segs1, init);
    assert(segs1.take(segs1.len() - 1) =~= segs0);
    assert(segs1.last() == fresh);
    assert forall|k: Seq<char>, e: IndexEntry| #[trigger] entry_ok(segs0, k, e) implies entry_ok(
        segs1,
        k,
        e,
    ) && entry_value(seg_data(segs1, e.file_id), e) == entry_value(
        seg_data(segs0, e.file_id),
        e,
    ) by {
        assert(seg_data(segs1, e.file_id) == seg_data(segs0, e.file_id));
    }
}

/// The mapping a replay state denotes, with values read back from the
/// segments.
pub open spec fn rstate_model(segs: Seq<Segment>, rst: RState) -> Map<Seq<char>, Seq<char>> {
    Map::new(
        |k: Seq<char>| rst.index.dom().contains(k),
        |k: Seq<char>| entry_value(seg_data(segs, rst.index[k].file_id), rst.index[k]),
    )
}

/// The logical mapping a run of segment files holds, when they replay
/// cleanly.
pub open spec fn replay_model(segs: Seq<Segment>) -> Option<Map<Seq<char>, Seq<char>>> {
    match replay_all(segs) {
        Some(rst) => Some(rstate_model(segs, rst)),
        None => None,
    }
}

/// The log-structured store: the segment files as bytes, the in-memory
/// index, the id of the segment receiving appends, the stale-byte counter,
/// and the published reclamation barrier.
pub struct KvStore {
    segments: Vec<Segment>,
    index: SkipMap<String, IndexEntry>,
    active_id: u64,
    inactive_data: u64,
    file_id_bar: u64,
}

impl KvStore {
    /// Internal well-formedness: ids sorted, the active segment last,
    /// replay rebuilds exactly the current index and stale count, and every
    /// index entry points at a live `Set` record for its key.
    pub closed spec fn inv(self) -> bool {
        &&& self.segments@.len() >= 1
        &&& ids_sorted(self.segments@)
        &&& self.active_id == self.segments@.last().file_id
        &&& replay_all(self.segments@) == Some(
            RState { index: skipmap_view(self.index), stale: self.inactive_data },
        )
        &&& forall|k: Seq<char>|
            skipmap_view(self.index).dom().contains(k) ==> entry_ok(
                self.segments@,
                k,
                #[trigger] skipmap_view(self.index)[k],
            )
    }

    /// The segment files as the store holds them.
    pub closed spec fn segs(self) -> Seq<Segment> {
        self.segments@
    }

    /// The logical key/value mapping the store holds.
    pub closed spec fn model(self) -> Map<Seq<char>, Seq<char>> {
        rstate_model(
            self.segments@,
            RState { index: skipmap_view(self.index), stale: self.inactive_data },
        )
    }

    /// The published reclamation barrier: segments with ids at or below it
    /// have been superseded by compaction.
    pub closed spec fn barrier(self) -> u64 {
        self.file_id_bar
    }

    /// Durability: a well-formed store's segment files replay to exactly
    /// its current logical mapping, so reopening from those files loses
    /// nothing.
    pub proof fn lemma_durability(self)
        requires
            self.inv(),
        ensures
            replay_model(self.segs()) == Some(self.model()),
    {
    }

    /// Read-only view of the segment files as they stand.
    pub fn segments(&self) -> (r: &Vec<Segment>)
        ensures
            r@ == self.segs(),
    {
        &self.segments
    }

    /// The published reclamation barrier.
    pub fn file_id_bar(&self) -> (r: u64)
        ensures
            r == self.barrier(),
    {
        self.file_id_bar
    }

    /// Open a store from the segment files found in its directory, given in
    /// ascending id order: replay every record to rebuild the index and the
    /// stale-byte count, then start a fresh active segment after the highest
    /// existing id.
    #[verifier::rlimit(50)]
    pub fn open(segments: Vec<Segment>) -> (r: Result<KvStore, KvsError>)
        requires
            ids_sorted(segments@),
        ensures
            r matches Ok(st) ==> st.inv() && replay_all(segments@) is Some && Some(st.model())
                == replay_model(segments@),
            r is Err ==> replay_all(segments@) is None || (segments@.len() >= 1
                && segments@.last().file_id == u64::MAX),
            replay_all(segments@) is Some && (segments@.len() == 0 || segments@.last().file_id
                < u64::MAX) ==> r is Ok,
    {
        let ghost osegs = segments@;
        let mut index = skipmap_new();
        let mut inactive: u64 = 0;
        let mut si: usize = 0;
        proof {
            assert(osegs.take(0) =~= Seq::<Segment>::empty());
        }
        while si < segments.len()
            invariant
                ids_sorted(osegs),
                segments@ == osegs,
                si <= osegs.len(),
                replay_segs(
                    osegs.take(si as int),
                    RState { index: Map::empty(), stale: 0 },
                ) == Some(RState { index: skipmap_view(index), stale: inactive }),
                forall|k: Seq<char>|
                    skipmap_view(index).dom().contains(k) ==> entry_ok(
                        osegs,
                        k,
                        #[trigger] skipmap_view(index)[k],
                    ),
            decreases osegs.len() - si,
        {
            let ghost st_begin = RState { index: skipmap_view(index), stale: inactive };
            proof {
                assert(replay_segs(
                    osegs.take(si as int),
                    RState { index: Map::empty(), stale: 0 },
                ) == Some(st_begin));
            }
            let fid = segments[si].file_id;
            let seg_len = segments[si].data.len();
            let ghost data = segments@[si as int].data@;
            let mut off: usize = 0;
            while off < seg_len
                invariant
                    ids_sorted(osegs),
                    segments@ == osegs,
                    si < osegs.len(),
                    fid == osegs[si as int].file_id,
                    data == osegs[si as int].data@,
                    seg_len == data.len(),
                    off <= seg_len,
                    replay_segs(
                        osegs.take(si as int),
                        RState { index: Map::empty(), stale: 0 },
                    ) == Some(st_begin),
                    replay_data(
                        fid,
                        data,
                        off as int,
                        RState { index: skipmap_view(index), stale: inactive },
                    ) == replay_data(fid, data, 0, st_begin),
                    forall|k: Seq<char>|
                        skipmap_view(index).dom().contains(k) ==> entry_ok(
                            osegs,
                            k,
                            #[trigger] skipmap_view(index)[k],
                        ),
                decreases seg_len - off,
            {
                let ghost st_here = RState { index: skipmap_view(index), stale: inactive };
                let seg = &segments[si];
                let tail = &seg.data.as_slice()[off..seg_len];
                proof {
                    assert(tail@ =~= data.skip(off as int));
                }
                let parsed = parse_command(tail);
                match parsed {
                    None => {
                        proof {
                            assert(replay_data(fid, data, off as int, st_here) is None);
                            assert(replay_data(fid, data, 0, st_begin) is None);
                            lemma_replay_fail(
                                osegs,
                                RState { index: Map::empty(), stale: 0 },
                                si as int,
                            );
                        }
                        return Err(
                            KvsError::Serde(
                                String::from_str("a segment holds bytes that are no record"),
                            ),
                        );
                    },
                    Some((cmd, n)) => {
                        proof {
                            lemma_parse_cmd_len(data.skip(off as int));
                            // the new entry's bytes parse on their own
                            assert(data.skip(off as int).take(n as int).take(n as int) =~= data.skip(
                                off as int,
                            ).take(n as int));
                            lemma_parse_cmd_stable(
                                data.skip(off as int),
                                data.skip(off as int).take(n as int),
                            );
                            assert(data.subrange(off as int, off as int + n) =~= data.skip(
                                off as int,
                            ).take(n as int));
                            lemma_seg_data_at(osegs, si as int);
                        }
                        match cmd {
                            Command::Put { key, .. } => {
                                let old_e = skipmap_get(&index, &key);
                                if let Some(e) = old_e {
                                    inactive = sat_add(inactive, e.len);
                                }
                                let entry = IndexEntry::new(fid, off as u64, (off + n) as u64);
                                skipmap_insert(&mut index, key, entry);
                            },
                            Command::Rm { key } => {
                                let removed = skipmap_remove(&mut index, &key);
                                if let Some(e) = removed {
                                    inactive = sat_add(inactive, e.len);
                                }
                            },
                        }
                        proof {
                            assert(RState { index: skipmap_view(index), stale: inactive } == rstep(
                                st_here,
                                fid,
                                off as u64,
                                n as u64,
                                parsed->Some_0.0@,
                            ));
                        }
                        off = off + n;
                    },
                }
            }
            proof {
                assert(replay_data(fid, data, seg_len as int, RState {
                    index: skipmap_view(index),
                    stale: inactive,
                }) == Some(RState { index: skipmap_view(index), stale: inactive }));
                lemma_replay_snoc(osegs.take(si as int + 1), RState { index: Map::empty(), stale: 0 });
                assert(osegs.take(si as int + 1).take(si as int) =~= osegs.take(si as int));
                assert(osegs.take(si as int + 1).last() == osegs[si as int]);
            }
            si = si + 1;
        }
        proof {
            assert(osegs.take(osegs.len() as int) =~= osegs);
        }
        // pick the fresh active id: one past the highest existing id
        let active_id: u64 = if segments.len() == 0 {
            1
        } else {
            let last = segments[segments.len() - 1].file_id;
            if last == u64::MAX {
                return Err(KvsError::OtherError(String::from_str("segment ids exhausted")));
            }
            last + 1
        };
        let fresh = Segment { file_id: active_id, data: Vec::new() };
        proof {
            lemma_seg_data_push(osegs, fresh);
            if osegs.len() > 0 {
                assert(osegs.last().file_id < active_id);
            }
            assert(ids_sorted(osegs.push(fresh))) by {
                assert forall|i: int, j: int|
                    0 <= i < j < osegs.push(fresh).len() implies #[trigger] osegs.push(
                        fresh,
                    )[i].file_id < #[trigger] osegs.push(fresh)[j].file_id by {
                    if j < osegs.len() {
                        assert(osegs[i].file_id < osegs[j].file_id);
                    } else {
                        assert(osegs.push(fresh)[j] == fresh);
                        if osegs.len() > 0 && i < osegs.len() {
                            if i < osegs.len() - 1 {
                                assert(osegs[i].file_id < osegs[osegs.len() - 1].file_id);
                            }
                            assert(osegs[i].file_id <= osegs.last().file_id);
                        }
                    }
                }
            }
            lemma_replay_snoc(osegs.push(fresh), RState { index: Map::empty(), stale: 0 });
            assert(osegs.push(fresh).take(osegs.len() as int) =~= osegs);
            assert(osegs.push(fresh).last() == fresh);
            assert(fresh.data@.len() == 0);
        }
        let mut segments = segments;
        segments.push(fresh);
        let st = KvStore { segments, index, active_id, inactive_data: inactive, file_id_bar: 0 };
        proof {
            assert forall|k: Seq<char>|
                skipmap_view(st.index).dom().contains(k) implies entry_ok(
                st.segments@,
                k,
                #[trigger] skipmap_view(st.index)[k],
            ) by {
                let e = skipmap_view(st.index)[k];
                assert(entry_ok(osegs, k, e));
                assert(seg_data(osegs.push(fresh), e.file_id) == seg_data(osegs, e.file_id));
            }
            assert(st.inv());
            assert(st.model() =~= rstate_model(
                osegs,
                replay_all(osegs)->Some_0,
            )) by {
                let rst = replay_all(osegs)->Some_0;
                assert forall|k: Seq<char>| rst.index.dom().contains(k) implies entry_value(
                    seg_data(st.segments@, rst.index[k].file_id),
                    rst.index[k],
                ) == entry_value(seg_data(osegs, rst.index[k].file_id), rst.index[k]) by {
                    assert(entry_ok(osegs, k, rst.index[k]));
                    assert(seg_data(osegs.push(fresh), rst.index[k].file_id) == seg_data(
                        osegs,
                        rst.index[k].file_id,
                    ));
                }
            }
        }
        Ok(st)
    }

    /// Append one encoded record to the active segment; returns the record's
    /// offset and the new cursor.
    fn append_active(&mut self, enc: Vec<u8>) -> (r: (usize, usize))
        requires
            old(self).segments@.len() >= 1,
        ensures
            final(self).segments@.len() == old(self).segments@.len(),
            forall|i: int|
                0 <= i < old(self).segments@.len() - 1 ==> final(self).segments@[i] == old(
                    self,
                ).segments@[i],
            final(self).segments@.last().file_id == old(self).segments@.last().file_id,
            final(self).segments@.last().data@ == old(self).segments@.last().data@ + enc@,
            r.0 == old(self).segments@.last().data@.len(),
            r.1 == final(self).segments@.last().data@.len(),
            r.1 == r.0 + enc@.len(),
            final(self).index == old(self).index,
            final(self).active_id == old(self).active_id,
            final(self).inactive_data == old(self).inactive_data,
            final(self).file_id_bar == old(self).file_id_bar,
    {
        let ghost segs0 = self.segments@;
        let mut seg = self.segments.pop().unwrap();
        let offset = seg.data.len();
        let mut enc = enc;
        seg.data.append(&mut enc);
        let new_cursor = seg.data.len();
        self.segments.push(seg);
        proof {
            assert(final(self).segments@ =~= segs0.take(segs0.len() - 1).push(
                final(self).segments@.last(),
            ));
        }
        (offset, new_cursor)
    }

    /// If the active segment has outgrown its target size, roll to a fresh
    /// one with the next id; skipped only when the id space is exhausted.
    fn maybe_roll(&mut self)
        requires
            old(self).inv(),
        ensures
            final(self).inv(),
            final(self).model() == old(self).model(),
            skipmap_view(final(self).index) == skipmap_view(old(self).index),
            final(self).inactive_data == old(self).inactive_data,
            final(self).file_id_bar == old(self).file_id_bar,
            final(self).active_id >= old(self).active_id,
    {
        let cursor = self.segments[self.segments.len() - 1].data.len();
        if cursor as u64 > MAX_FILE_SIZE && self.active_id < u64::MAX {
            let ghost segs0 = self.segments@;
            let ghost st0 = RState {
                index: skipmap_view(self.index),
                stale: self.inactive_data,
            };
            self.active_id = self.active_id + 1;
            let fresh = Segment { file_id: self.active_id, data: Vec::new() };
            proof {
                lemma_push_fresh(segs0, fresh, st0);
            }
            self.segments.push(fresh);
            proof {
                assert forall|k: Seq<char>|
                    skipmap_view(self.index).dom().contains(k) implies entry_ok(
                    self.segments@,
                    k,
                    #[trigger] skipmap_view(self.index)[k],
                ) by {
                    assert(entry_ok(segs0, k, skipmap_view(self.index)[k]));
                }
                assert(final(self).model() =~= old(self).model()) by {
                    assert forall|k: Seq<char>|
                        skipmap_view(self.index).dom().contains(k) implies entry_value(
                        seg_data(self.segments@, skipmap_view(self.index)[k].file_id),
                        skipmap_view(self.index)[k],
                    ) == entry_value(
                        seg_data(segs0, skipmap_view(self.index)[k].file_id),
                        skipmap_view(self.index)[k],
                    ) by {
                        assert(entry_ok(segs0, k, skipmap_view(self.index)[k]));
                    }
                }
            }
        }
    }
}

impl KvStore {
    /// Set the string value of a string key: append a `Set` record to the
    /// active segment, mark any superseded record stale, and point the
    /// index at the new record. The write is in the store's byte image by
    /// the time this returns.
    pub fn set(&mut self, key: String, value: String) -> (r: Result<(), KvsError>)
        requires
            old(self).inv(),
        ensures
            final(self).inv(),
            r is Ok,
            final(self).model() == old(self).model().insert(key@, value@),
    {
        let ghost segs0 = self.segments@;
        let ghost idx0 = skipmap_view(self.index);
        let ghost st0 = RState { index: idx0, stale: self.inactive_data };
        let ghost model0 = self.model();
        let cmd = Command::set(key, value);
        let enc = encode_command(&cmd);
        let ghost encs = enc@;
        proof {
            lemma_parse_cmd_enc(cmd@, Seq::<u8>::empty());
            assert(cmd_json(cmd@) + Seq::<u8>::empty() =~= cmd_json(cmd@));
            lemma_parse_cmd_len(cmd_json(cmd@));
        }
        let (offset, new_cursor) = self.append_active(enc);
        let ghost segs1 = self.segments@;
        let ghost stepped = rstep(
            st0,
            self.active_id,
            offset as u64,
            encs.len() as u64,
            cmd@,
        );
        proof {
            lemma_append_active(segs0, segs1, encs, cmd@, st0);
        }
        let key2 = cmd.key();
        let old_e = skipmap_get(&self.index, &key2);
        if let Some(e) = old_e {
            self.inactive_data = sat_add(self.inactive_data, e.len);
        }
        let entry = IndexEntry::new(self.active_id, offset as u64, new_cursor as u64);
        skipmap_insert(&mut self.index, key2, entry);
        proof {
            assert(skipmap_view(self.index) =~= stepped.index);
            assert(self.inactive_data == stepped.stale);
            assert forall|k: Seq<char>|
                skipmap_view(self.index).dom().contains(k) implies entry_ok(
                self.segments@,
                k,
                #[trigger] skipmap_view(self.index)[k],
            ) by {
                if k == key2@ {
                } else {
                    assert(entry_ok(segs0, k, idx0[k]));
                }
            }
            assert(self.inv());
            assert(self.model() =~= model0.insert(key2@, value@)) by {
                assert forall|k: Seq<char>|
                    skipmap_view(self.index).dom().contains(k) && k != key2@ implies entry_value(
                    seg_data(self.segments@, skipmap_view(self.index)[k].file_id),
                    skipmap_view(self.index)[k],
                ) == entry_value(
                    seg_data(segs0, idx0[k].file_id),
                    idx0[k],
                ) by {
                    assert(entry_ok(segs0, k, idx0[k]));
                }
            }
        }
        self.maybe_roll();
        if self.inactive_data >= MAX_INACTIVE_DATA_SIZE && self.active_id <= u64::MAX - 2 {
            let _ = self.compact();
        }
        Ok(())
    }

    /// Remove a string key: an absent key is a `KeyNotFound` error and the
    /// store is left untouched; a present key gets a `Remove` record
    /// appended, its old record marked stale, and its index entry dropped.
    pub fn remove(&mut self, key: String) -> (r: Result<(), KvsError>)
        requires
            old(self).inv(),
        ensures
            final(self).inv(),
            old(self).model().dom().contains(key@) ==> r is Ok && final(self).model() == old(
                self,
            ).model().remove(key@),
            !old(self).model().dom().contains(key@) ==> (r matches Err(e) && e matches
                KvsError::KeyNotFound) && *final(self) == *old(self),
    {
        let ghost segs0 = self.segments@;
        let ghost idx0 = skipmap_view(self.index);
        let ghost st0 = RState { index: idx0, stale: self.inactive_data };
        let ghost model0 = self.model();
        let present = skipmap_get(&self.index, &key);
        if present.is_none() {
            return Err(KvsError::KeyNotFound);
        }
        let cmd = Command::rm(key);
        let enc = encode_command(&cmd);
        let ghost encs = enc@;
        proof {
            lemma_parse_cmd_enc(cmd@, Seq::<u8>::empty());
            assert(cmd_json(cmd@) + Seq::<u8>::empty() =~= cmd_json(cmd@));
            lemma_parse_cmd_len(cmd_json(cmd@));
        }
        let (offset, new_cursor) = self.append_active(enc);
        let ghost segs1 = self.segments@;
        let ghost stepped = rstep(
            st0,
            self.active_id,
            offset as u64,
            encs.len() as u64,
            cmd@,
        );
        proof {
            lemma_append_active(segs0, segs1, encs, cmd@, st0);
        }
        let key2 = cmd.key();
        let removed = skipmap_remove(&mut self.index, &key2);
        match removed {
            Some(e) => {
                self.inactive_data = sat_add(self.inactive_data, e.len);
            },
            None => {
                return Err(KvsError::BrokenIndex);
            },
        }
        proof {
            assert(skipmap_view(self.index) =~= stepped.index);
            assert(self.inactive_data == stepped.stale);
            assert forall|k: Seq<char>|
                skipmap_view(self.index).dom().contains(k) implies entry_ok(
                self.segments@,
                k,
                #[trigger] skipmap_view(self.index)[k],
            ) by {
                assert(entry_ok(segs0, k, idx0[k]));
            }
            assert(self.inv());
            assert(self.model() =~= model0.remove(key2@)) by {
                assert forall|k: Seq<char>|
                    skipmap_view(self.index).dom().contains(k) implies entry_value(
                    seg_data(self.segments@, skipmap_view(self.index)[k].file_id),
                    skipmap_view(self.index)[k],
                ) == entry_value(
                    seg_data(segs0, idx0[k].file_id),
                    idx0[k],
                ) by {
                    assert(entry_ok(segs0, k, idx0[k]));
                }
            }
        }
        self.maybe_roll();
        if self.inactive_data >= MAX_INACTIVE_DATA_SIZE && self.active_id <= u64::MAX - 2 {
            let _ = self.compact();
        }
        Ok(())
    }

    /// Read back the record an index entry points at, from the segment
    /// whose id it names.
    fn read_command(&self, e: IndexEntry, Ghost(k): Ghost<Seq<char>>) -> (r: Result<
        Command,
        KvsError,
    >)
        requires
            ids_sorted(self.segments@),
            entry_ok(self.segments@, k, e),
        ensures
            r matches Ok(c) && (c@ matches CommandV::Put { key, value } && key == k && value
                == entry_value(seg_data(self.segments@, e.file_id), e)),
    {
        let n = self.segments.len();
        let mut i: usize = 0;
        while i < n
            invariant
                ids_sorted(self.segments@),
                entry_ok(self.segments@, k, e),
                n == self.segments@.len(),
                i <= n,
                forall|j: int| 0 <= j < i ==> #[trigger] self.segments@[j].file_id != e.file_id,
            decreases n - i,
        {
            if self.segments[i].file_id == e.file_id {
                proof {
                    lemma_seg_data_at(self.segments@, i as int);
                }
                let seg = &self.segments[i];
                let dlen = seg.data.len();
                proof {
                    assert(dlen == seg_data(self.segments@, e.file_id).len());
                    assert(e.offset + e.len <= dlen);
                }
                let off = e.offset as usize;
                let end_pos = (e.offset + e.len) as usize;
                let record = &seg.data.as_slice()[off..end_pos];
                proof {
                    assert(record@ =~= seg_data(self.segments@, e.file_id).subrange(
                        e.offset as int,
                        e.offset + e.len,
                    ));
                }
                let parsed = parse_command(record);
                match parsed {
                    Some((c, _)) => {
                        return Ok(c);
                    },
                    None => {
                        // an index entry never points at unparseable bytes
                        return Err(KvsError::BrokenCommand);
                    },
                }
            }
            i += 1;
        }
        proof {
            let j = choose|j: int|
                0 <= j < self.segments@.len() && #[trigger] self.segments@[j].file_id == e.file_id;
            assert(false);
        }
        Err(KvsError::BrokenIndex)
    }

    /// The stale-byte counter: bytes superseded by later writes or
    /// removals, reclaimed by compaction.
    pub closed spec fn stale(self) -> u64 {
        self.inactive_data
    }

    /// Compact the log: copy every live record into fresh segments after
    /// the current active id, re-point the index at the copies, open a new
    /// active segment, publish the reclamation barrier, and drop every
    /// segment at or below it. The logical mapping is untouched and the
    /// stale count returns to zero. Fails only when the id space is nearly
    /// exhausted, leaving the store as it was.
    #[verifier::rlimit(100)]
    #[verifier::spinoff_prover]
    pub fn compact(&mut self) -> (r: Result<(), KvsError>)
        requires
            old(self).inv(),
        ensures
            final(self).inv(),
            final(self).model() == old(self).model(),
            old(self).segs().last().file_id <= u64::MAX - 2 ==> r is Ok,
            r is Ok ==> final(self).stale() == 0 && final(self).barrier() == old(
                self,
            ).segs().last().file_id,
    {
        if self.active_id > u64::MAX - 2 {
            return Err(KvsError::OtherError(String::from_str("segment ids exhausted")));
        }
        let ghost segs0 = self.segments@;
        let ghost idx0 = skipmap_view(self.index);
        let ghost stale0 = self.inactive_data;
        let ghost model0 = self.model();
        let barrier = self.active_id;
        let mut cfid: u64 = barrier + 1;
        let mut new_segs: Vec<Segment> = Vec::new();
        new_segs.push(Segment { file_id: cfid, data: Vec::new() });
        let ghost mut pmap: Map<Seq<char>, IndexEntry> = Map::empty();
        proof {
            let init = RState { index: Map::empty(), stale: 0 };
            assert(new_segs@[0].data@.len() == 0);
            assert(replay_data(cfid, new_segs@[0].data@, 0, init) == Some(init));
            assert(new_segs@.skip(1) =~= Seq::<Segment>::empty());
            assert(replay_segs(new_segs@.skip(1), init) == Some(init));
            assert(replay_all(new_segs@) == Some(init));
            assert(RState { index: pmap, stale: 0u64 } == init);
        }
        let entries = skipmap_entries(&self.index);
        let ghost ent = entries@;
        let mut ei: usize = 0;
        while ei < entries.len()
            invariant
                self.segments@ == segs0,
                self.active_id == barrier,
                self.inactive_data == stale0,
                barrier <= u64::MAX - 2,
                segs0.len() >= 1,
                ids_sorted(segs0),
                barrier == segs0.last().file_id,
                replay_all(segs0) == Some(RState { index: idx0, stale: stale0 }),
                forall|k: Seq<char>|
                    idx0.dom().contains(k) ==> entry_ok(segs0, k, #[trigger] idx0[k]),
                model0 == rstate_model(segs0, RState { index: idx0, stale: stale0 }),
                entries@ == ent,
                forall|i: int|
                    0 <= i < ent.len() ==> idx0.contains_pair(#[trigger] ent[i].0@, ent[i].1),
                forall|i: int, j: int| 0 <= i < j < ent.len() ==> ent[i].0@ != ent[j].0@,
                forall|k: Seq<char>|
                    #[trigger] idx0.dom().contains(k) ==> exists|i: int|
                        0 <= i < ent.len() && ent[i].0@ == k,
                ei <= ent.len(),
                barrier + 1 <= cfid <= u64::MAX - 1,
                new_segs@.len() >= 1,
                ids_sorted(new_segs@),
                new_segs@.last().file_id == cfid,
                new_segs@[0].file_id >= barrier + 1,
                replay_all(new_segs@) == Some(RState { index: pmap, stale: 0 }),
                skipmap_view(self.index) == idx0.union_prefer_right(pmap),
                forall|k: Seq<char>|
                    #[trigger] pmap.dom().contains(k) <==> exists|i: int|
                        0 <= i < ei && ent[i].0@ == k,
                forall|k: Seq<char>|
                    #[trigger] pmap.dom().contains(k) ==> entry_ok(new_segs@, k, pmap[k])
                        && entry_value(seg_data(new_segs@, pmap[k].file_id), pmap[k])
                        == model0[k],
            decreases ent.len() - ei,
        {
            let e = entries[ei].1;
            let ghost k = ent[ei as int].0@;
            proof {
                assert(idx0.contains_pair(k, e));
                assert(entry_ok(segs0, k, idx0[k]));
                assert(!pmap.dom().contains(k)) by {
                    if pmap.dom().contains(k) {
                        let i = choose|i: int| 0 <= i < ei && ent[i].0@ == k;
                        assert(ent[i].0@ != ent[ei as int].0@);
                    }
                }
            }
            let cmd = self.read_command(e, Ghost(k));
            let value = match cmd {
                Ok(Command::Put { value, .. }) => value,
                Ok(_) => {
                    return Err(KvsError::BrokenCommand);
                },
                Err(err) => {
                    return Err(err);
                },
            };
            let key = entries[ei].0.clone();
            let ghost valv = value@;
            proof {
                assert(valv == entry_value(seg_data(segs0, e.file_id), e));
                assert(model0[k] == valv);
            }
            let cmd2 = Command::set(key, value);
            let enc = encode_command(&cmd2);
            let ghost encs = enc@;
            proof {
                lemma_parse_cmd_enc(cmd2@, Seq::<u8>::empty());
                assert(cmd_json(cmd2@) + Seq::<u8>::empty() =~= cmd_json(cmd2@));
                lemma_parse_cmd_len(cmd_json(cmd2@));
            }
            let ghost ns0 = new_segs@;
            let mut seg = new_segs.pop().unwrap();
            let offset = seg.data.len();
            let mut encm = enc;
            seg.data.append(&mut encm);
            let ncur = seg.data.len();
            new_segs.push(seg);
            proof {
                assert(new_segs@ =~= ns0.take(ns0.len() - 1).push(new_segs@.last()));
                lemma_append_active(ns0, new_segs@, encs, cmd2@, RState { index: pmap, stale: 0 });
            }
            let ne = IndexEntry::new(cfid, offset as u64, ncur as u64);
            let key2 = cmd2.key();
            skipmap_insert(&mut self.index, key2, ne);
            proof {
                let old_pmap = pmap;
                pmap = pmap.insert(k, ne);
                assert(skipmap_view(self.index) =~= idx0.union_prefer_right(pmap));
                assert(replay_all(new_segs@) == Some(RState { index: pmap, stale: 0 }));
                assert forall|kk: Seq<char>| #[trigger] pmap.dom().contains(kk) implies entry_ok(
                    new_segs@,
                    kk,
                    pmap[kk],
                ) && entry_value(seg_data(new_segs@, pmap[kk].file_id), pmap[kk])
                    == model0[kk] by {
                    if kk == k {
                    } else {
                        assert(entry_ok(ns0, kk, old_pmap[kk]));
                    }
                }
            }
            if ncur as u64 > MAX_FILE_SIZE && cfid < u64::MAX - 1 {
                let ghost ns1 = new_segs@;
                cfid = cfid + 1;
                let fresh = Segment { file_id: cfid, data: Vec::new() };
                proof {
                    lemma_push_fresh(ns1, fresh, RState { index: pmap, stale: 0 });
                }
                new_segs.push(fresh);
                proof {
                    assert forall|kk: Seq<char>| #[trigger] pmap.dom().contains(kk) implies
                        entry_ok(new_segs@, kk, pmap[kk]) && entry_value(
                        seg_data(new_segs@, pmap[kk].file_id),
                        pmap[kk],
                    ) == model0[kk] by {
                        assert(entry_ok(ns1, kk, pmap[kk]));
                    }
                }
            }
            ei += 1;
        }
        proof {
            // every key was processed, so the index is exactly the new map
            assert(pmap.dom() =~= idx0.dom()) by {
                assert forall|k: Seq<char>| idx0.dom().contains(k) implies pmap.dom().contains(
                    k,
                ) by {
                    let i = choose|i: int| 0 <= i < ent.len() && ent[i].0@ == k;
                }
                assert forall|k: Seq<char>| pmap.dom().contains(k) implies idx0.dom().contains(
                    k,
                ) by {
                    let i = choose|i: int| 0 <= i < ei && ent[i].0@ == k;
                    assert(idx0.contains_pair(ent[i].0@, ent[i].1));
                }
            }
            assert(idx0.union_prefer_right(pmap) =~= pmap);
        }
        let ghost ns_done = new_segs@;
        self.active_id = cfid + 1;
        let fresh = Segment { file_id: self.active_id, data: Vec::new() };
        proof {
            lemma_push_fresh(ns_done, fresh, RState { index: pmap, stale: 0 });
        }
        new_segs.push(fresh);
        self.segments = new_segs;
        self.file_id_bar = barrier;
        self.inactive_data = 0;
        proof {
            assert forall|k: Seq<char>|
                skipmap_view(self.index).dom().contains(k) implies entry_ok(
                self.segments@,
                k,
                #[trigger] skipmap_view(self.index)[k],
            ) by {
                assert(entry_ok(ns_done, k, pmap[k]));
            }
            assert(self.inv());
            assert(self.model() =~= model0) by {
                assert forall|k: Seq<char>|
                    skipmap_view(self.index).dom().contains(k) implies entry_value(
                    seg_data(self.segments@, skipmap_view(self.index)[k].file_id),
                    skipmap_view(self.index)[k],
                ) == model0[k] by {
                    assert(entry_ok(ns_done, k, pmap[k]));
                    assert(entry_value(seg_data(ns_done, pmap[k].file_id), pmap[k]) == model0[k]);
                }
            }
        }
        Ok(())
    }

    /// Look a string key up: absent keys are `None`; a present key's value
    /// is read back from the record its index entry points at.
    pub fn get(&self, key: String) -> (r: Result<Option<String>, KvsError>)
        requires
            self.inv(),
        ensures
            r matches Ok(o) && (match o {
                Some(v) => self.model().dom().contains(key@) && v@ == self.model()[key@],
                None => !self.model().dom().contains(key@),
            }),
    {
        match skipmap_get(&self.index, &key) {
            None => Ok(None),
            Some(e) => {
                proof {
                    assert(entry_ok(self.segments@, key@, e));
                }
                let cmd = self.read_command(e, Ghost(key@));
                match cmd {
                    Ok(Command::Put { value, .. }) => Ok(Some(value)),
                    Ok(_) => Err(KvsError::BrokenCommand),
                    Err(err) => Err(err),
                }
            },
        }
    }
}

impl crate::engine::KvsEngine for KvStore {
    open spec fn kv_model(&self) -> Map<Seq<char>, Seq<char>> {
        self.model()
    }

    open spec fn kv_inv(&self) -> bool {
        self.inv()
    }

    fn set(&mut self, key: String, value: String) -> (r: Result<(), KvsError>) {
        KvStore::set(self, key, value)
    }

    fn get(&mut self, key: String) -> (r: Result<Option<String>, KvsError>) {
        KvStore::get(self, key)
    }

    fn remove(&mut self, key: String) -> (r: Result<(), KvsError>) {
        KvStore::remove(self, key)
    }
}

/// A segment looked up by an id no segment carries is empty.
pub proof fn lemma_seg_data_absent(segs: Seq<Segment>, fid: u64)
    requires
        !has_seg(segs, fid),
    ensures
        seg_data(segs, fid) == Seq::<u8>::empty(),
    decreases segs.len(),
{
    if segs.len() == 0 {
    } else {
        assert(segs[0].file_id != fid) by {
            if segs[0].file_id == fid {
                assert(has_seg(segs, fid));
            }
        }
        assert(!has_seg(segs.skip(1), fid)) by {
            if has_seg(segs.skip(1), fid) {
                let i = choose|i: int|
                    0 <= i < segs.skip(1).len() && #[trigger] segs.skip(1)[i].file_id == fid;
                assert(segs[i + 1].file_id == fid);
            }
        }
        lemma_seg_data_absent(segs.skip(1), fid);
    }
}

/// Idempotent reopen: opening a directory again adds one fresh empty
/// segment after the highest id, and an empty segment holds no records, so
/// the recovered logical mapping is exactly the one before.
pub proof fn lemma_reopen_identity(segs: Seq<Segment>, fresh: Segment)
    requires
        ids_sorted(segs),
        fresh.data@.len() == 0,
        segs.len() >= 1 ==> fresh.file_id > segs.last().file_id,
    ensures
        replay_model(segs.push(fresh)) == replay_model(segs),
{
    let init = RState { index: Map::empty(), stale: 0 };
    lemma_seg_data_push(segs, fresh);
    lemma_replay_snoc(segs.push(fresh), init);
    assert(segs.push(fresh).take(segs.len() as int) =~= segs);
    assert(segs.push(fresh).last() == fresh);
    if replay_all(segs) is Some {
        let rst = replay_all(segs)->Some_0;
        assert(replay_data(fresh.file_id, fresh.data@, 0, rst) == Some(rst));
        assert(replay_all(segs.push(fresh)) == Some(rst));
        assert(rstate_model(segs.push(fresh), rst) =~= rstate_model(segs, rst)) by {
            assert forall|k: Seq<char>| rst.index.dom().contains(k) implies entry_value(
                seg_data(segs.push(fresh), rst.index[k].file_id),
                rst.index[k],
            ) == entry_value(seg_data(segs, rst.index[k].file_id), rst.index[k]) by {
                let fid = rst.index[k].file_id;
                if has_seg(segs, fid) {
                } else {
                    lemma_seg_data_absent(segs, fid);
                    if fid == fresh.file_id {
                        assert(seg_data(segs.push(fresh), fid) == fresh.data@);
                        assert(fresh.data@ =~= Seq::<u8>::empty());
                    } else {
                        assert(!has_seg(segs.push(fresh), fid)) by {
                            if has_seg(segs.push(fresh), fid) {
                                let i = choose|i: int|
                                    0 <= i < segs.push(fresh).len() && #[trigger] segs.push(
                                        fresh,
                                    )[i].file_id == fid;
                                if i < segs.len() {
                                    assert(segs[i].file_id == fid);
                                }
                            }
                        }
                        lemma_seg_data_absent(segs.push(fresh), fid);
                    }
                }
            }
        }
    }
}

/// Overwrite: setting a key twice leaves the second value as the one a
/// lookup returns.
pub proof fn lemma_overwrite(
    m: Map<Seq<char>, Seq<char>>,
    k: Seq<char>,
    v1: Seq<char>,
    v2: Seq<char>,
)
    ensures
        m.insert(k, v1).insert(k, v2).dom().contains(k),
        m.insert(k, v1).insert(k, v2)[k] == v2,
        m.insert(k, v1).insert(k, v2) == m.insert(k, v2),
{
    assert(m.insert(k, v1).insert(k, v2) =~= m.insert(k, v2));
}

/// The mapping reached by applying a run of `set` steps in order.
pub open spec fn apply_sets(
    m: Map<Seq<char>, Seq<char>>,
    pairs: Seq<(Seq<char>, Seq<char>)>,
) -> Map<Seq<char>, Seq<char>>
    decreases pairs.len(),
{
    if pairs.len() == 0 {
        m
    } else {
        apply_sets(m.insert(pairs[0].0, pairs[0].1), pairs.skip(1))
    }
}

/// Keys no step touches keep their binding.
pub proof fn lemma_apply_sets_frame(
    m: Map<Seq<char>, Seq<char>>,
    pairs: Seq<(Seq<char>, Seq<char>)>,
    k: Seq<char>,
)
    requires
        forall|j: int| 0 <= j < pairs.len() ==> (#[trigger] pairs[j].0) != k,
    ensures
        apply_sets(m, pairs).dom().contains(k) == m.dom().contains(k),
        m.dom().contains(k) ==> apply_sets(m, pairs)[k] == m[k],
    decreases pairs.len(),
{
    if pairs.len() == 0 {
    } else {
        assert(pairs[0].0 != k);
        assert(forall|j: int|
            0 <= j < pairs.skip(1).len() ==> (#[trigger] pairs.skip(1)[j].0) == pairs[j + 1].0);
        lemma_apply_sets_frame(m.insert(pairs[0].0, pairs[0].1), pairs.skip(1), k);
    }
}

/// Every id in `r` appears among `cached`.
pub open spec fn ids_among(r: Seq<u64>, cached: Seq<u64>) -> bool {
    forall|j: int|
        #![trigger r[j]]
        0 <= j < r.len() ==> exists|i: int|
            #![trigger cached[i]]
            0 <= i < cached.len() && cached[i] == r[j]
}

/// Which of a reader's cached segment handles are safe to drop: after
/// compaction publishes its barrier, every id at or below it has been
/// superseded.
pub fn stale_reader_ids(cached: &Vec<u64>, file_id_bar: u64) -> (r: Vec<u64>)
    ensures
        forall|i: int| 0 <= i < r@.len() ==> #[trigger] r@[i] <= file_id_bar,
        forall|i: int|
            0 <= i < cached@.len() ==> (#[trigger] cached@[i] <= file_id_bar ==> exists|j: int|
                0 <= j < r@.len() && r@[j] == cached@[i]),
        ids_among(r@, cached@),
{
    let mut out: Vec<u64> = Vec::new();
    let mut i: usize = 0;
    while i < cached.len()
        invariant
            i <= cached@.len(),
            forall|k: int| 0 <= k < out@.len() ==> #[trigger] out@[k] <= file_id_bar,
            forall|k: int|
                0 <= k < i ==> (#[trigger] cached@[k] <= file_id_bar ==> exists|j: int|
                    0 <= j < out@.len() && out@[j] == cached@[k]),
            ids_among(out@, cached@),
        decreases cached@.len() - i,
    {
        let id = cached[i];
        if id <= file_id_bar {
            let ghost out0 = out@;
            out.push(id);
            proof {
                assert forall|k: int|
                    0 <= k < i + 1 implies (#[trigger] cached@[k] <= file_id_bar ==> exists|j: int|
                    0 <= j < out@.len() && out@[j] == cached@[k]) by {
                    if cached@[k] <= file_id_bar {
                        if k == i {
                            assert(out@[out@.len() - 1] == cached@[i as int]);
                        } else {
                            let j0 = choose|j0: int| 0 <= j0 < out0.len() && out0[j0] == cached@[k];
                            assert(out@[j0] == cached@[k]);
                        }
                    }
                }
                assert forall|j: int|
                    #![trigger out@[j]]
                    0 <= j < out@.len() implies exists|k: int|
                    #![trigger cached@[k]]
                    0 <= k < cached@.len() && cached@[k] == out@[j] by {
                    if j < out0.len() {
                        assert(ids_among(out0, cached@));
                        let k0 = choose|k0: int|
                            #![trigger cached@[k0]]
                            0 <= k0 < cached@.len() && cached@[k0] == out0[j];
                        assert(cached@[k0] == out@[j]);
                    } else {
                        assert(cached@[i as int] == out@[j]);
                    }
                }
                assert(ids_among(out@, cached@));
            }
        }
        i += 1;
    }
    out
}

/// The byte spelling of `.log`.
pub open spec fn log_suffix() -> Seq<u8> {
    seq![0x2Eu8, 0x6Cu8, 0x6Fu8, 0x67u8]
}

/// A file name's bytes with every trailing `.log` removed.
pub open spec fn strip_log(b: Seq<u8>) -> Seq<u8>
    decreases b.len(),
{
    if b.len() >= 4 && b.subrange(b.len() - 4, b.len() as int) == log_suffix() {
        strip_log(b.take(b.len() - 4))
    } else {
        b
    }
}

/// A nonempty run of decimal digit bytes.
pub open spec fn is_dec_digits(b: Seq<u8>) -> bool {
    b.len() >= 1 && forall|i: int| 0 <= i < b.len() ==> 0x30 <= #[trigger] b[i] <= 0x39
}

/// The number a run of decimal digit bytes spells.
pub open spec fn dec_val(b: Seq<u8>) -> int
    decreases b.len(),
{
    if b.len() == 0 {
        0
    } else {
        dec_val(b.take(b.len() - 1)) * 10 + (b.last() - 0x30)
    }
}

/// The segment id a file name carries: decimal digits followed by `.log`,
/// small enough for a 64-bit id. Anything else is no segment file.
pub open spec fn log_file_id(b: Seq<u8>) -> Option<u64> {
    let t = strip_log(b);
    if t.len() < b.len() && is_dec_digits(t) && dec_val(t) <= u64::MAX {
        Some(dec_val(t) as u64)
    } else {
        None
    }
}

/// A digit run's value is nonnegative.
pub proof fn lemma_dec_val_nonneg(b: Seq<u8>)
    requires
        forall|i: int| 0 <= i < b.len() ==> 0x30 <= #[trigger] b[i] <= 0x39,
    ensures
        dec_val(b) >= 0,
    decreases b.len(),
{
    if b.len() > 0 {
        assert(forall|i: int|
            0 <= i < b.take(b.len() - 1).len() ==> 0x30 <= #[trigger] b.take(b.len() - 1)[i]
                <= 0x39);
        lemma_dec_val_nonneg(b.take(b.len() - 1));
    }
}

/// A digit run's value only grows as more digits are read.
pub proof fn lemma_dec_val_mono(b: Seq<u8>, i: int)
    requires
        0 <= i <= b.len(),
        forall|j: int| 0 <= j < b.len() ==> 0x30 <= #[trigger] b[j] <= 0x39,
    ensures
        dec_val(b) >= dec_val(b.take(i)),
    decreases b.len() - i,
{
    if i == b.len() {
        assert(b.take(i) =~= b);
    } else {
        assert(b.take(i + 1).take(i) =~= b.take(i));
        assert(b.take(i + 1).last() == b[i]);
        assert(forall|j: int|
            0 <= j < b.take(i).len() ==> 0x30 <= #[trigger] b.take(i)[j] <= 0x39);
        lemma_dec_val_nonneg(b.take(i));
        assert(dec_val(b.take(i + 1)) == dec_val(b.take(i)) * 10 + (b[i] - 0x30));
        assert(dec_val(b.take(i)) * 10 >= dec_val(b.take(i))) by (nonlinear_arith)
            requires
                dec_val(b.take(i)) >= 0,
        ;
        lemma_dec_val_mono(b, i + 1);
    }
}

/// The id a segment file name carries, or nothing for any other name.
fn parse_log_name(name: &str) -> (r: Option<u64>)
    ensures
        r == log_file_id(vstd::utf8::encode_utf8(name@)),
{
    let b = name.as_bytes();
    let ghost full = b@;
    let blen = b.len();
    let mut end: usize = blen;
    proof {
        assert(full.take(end as int) =~= full);
    }
    loop
        invariant
            end <= blen,
            blen == full.len(),
            b@ == full,
            strip_log(full) == strip_log(full.take(end as int)),
        ensures
            end <= blen,
            strip_log(full) == full.take(end as int),
        decreases end,
    {
        let ghost cur = full.take(end as int);
        if end >= 4 && b[end - 4] == 0x2E && b[end - 3] == 0x6C && b[end - 2] == 0x6F && b[end - 1]
            == 0x67 {
            proof {
                assert(cur.subrange(cur.len() - 4, cur.len() as int) =~= log_suffix());
                assert(cur.take(cur.len() - 4) =~= full.take(end as int - 4));
            }
            end = end - 4;
        } else {
            proof {
                if cur.len() >= 4 && cur.subrange(cur.len() - 4, cur.len() as int)
                    == log_suffix() {
                    assert(cur.subrange(cur.len() - 4, cur.len() as int)[0] == full[end - 4]);
                    assert(cur.subrange(cur.len() - 4, cur.len() as int)[1] == full[end - 3]);
                    assert(cur.subrange(cur.len() - 4, cur.len() as int)[2] == full[end - 2]);
                    assert(cur.subrange(cur.len() - 4, cur.len() as int)[3] == full[end - 1]);
                }
                assert(strip_log(cur) == cur);
            }
            break ;
        }
    }
    let ghost t = strip_log(full);
    proof {
        assert(t == full.take(end as int));
        assert(t.len() == end);
    }
    if end == blen || end == 0 {
        return None;
    }
    // every byte before the suffix must be a decimal digit
    let mut i: usize = 0;
    while i < end
        invariant
            i <= end,
            0 < end < blen,
            blen == full.len(),
            b@ == full,
            full == vstd::utf8::encode_utf8(name@),
            t == strip_log(full),
            t == full.take(end as int),
            forall|j: int| 0 <= j < i ==> 0x30 <= #[trigger] t[j] <= 0x39,
        decreases end - i,
    {
        let d = b[i];
        proof {
            assert(t[i as int] == full[i as int]);
        }
        if d < 0x30 || d > 0x39 {
            return None;
        }
        i += 1;
    }
    // spell the digits out as a 64-bit id; a number too large for one is
    // no segment id
    let mut val: u64 = 0;
    let mut i2: usize = 0;
    while i2 < end
        invariant
            i2 <= end,
            0 < end < blen,
            blen == full.len(),
            b@ == full,
            full == vstd::utf8::encode_utf8(name@),
            t == strip_log(full),
            t == full.take(end as int),
            is_dec_digits(t),
            val == dec_val(t.take(i2 as int)),
        decreases end - i2,
    {
        let d = b[i2];
        proof {
            assert(t[i2 as int] == full[i2 as int]);
            assert(t.take(i2 as int + 1).take(i2 as int) =~= t.take(i2 as int));
            assert(t.take(i2 as int + 1).last() == t[i2 as int]);
            lemma_dec_val_nonneg(t.take(i2 as int));
        }
        let dv = (d - 0x30) as u64;
        if val > (u64::MAX - dv) / 10 {
            proof {
                assert(dec_val(t.take(i2 as int + 1)) == val * 10 + dv);
                assert(val * 10 + dv > u64::MAX) by (nonlinear_arith)
                    requires
                        val > (u64::MAX - dv) / 10,
                        dv <= 9,
                ;
                lemma_dec_val_mono(t, i2 as int + 1);
            }
            return None;
        }
        proof {
            assert(val * 10 + dv <= u64::MAX) by (nonlinear_arith)
                requires
                    val <= (u64::MAX - dv) / 10,
                    dv <= 9,
            ;
            assert(dec_val(t.take(i2 as int + 1)) == val * 10 + dv);
        }
        val = val * 10 + dv;
        i2 += 1;
    }
    proof {
        assert(t.take(end as int) =~= t);
    }
    Some(val)
}

/// Insert an id into a strictly ascending run, keeping it strictly
/// ascending; an id already present stays single.
fn insert_sorted(ids: &mut Vec<u64>, id: u64)
    requires
        forall|a: int, b: int| 0 <= a < b < old(ids)@.len() ==> old(ids)@[a] < old(ids)@[b],
    ensures
        forall|a: int, b: int| 0 <= a < b < final(ids)@.len() ==> final(ids)@[a] < final(ids)@[b],
        exists|i: int| 0 <= i < final(ids)@.len() && final(ids)@[i] == id,
        forall|i: int|
            0 <= i < final(ids)@.len() ==> final(ids)@[i] == id || exists|j: int|
                0 <= j < old(ids)@.len() && old(ids)@[j] == #[trigger] final(ids)@[i],
        forall|j: int|
            0 <= j < old(ids)@.len() ==> exists|i: int|
                0 <= i < final(ids)@.len() && final(ids)@[i] == #[trigger] old(ids)@[j],
    {
    let mut pos: usize = 0;
    while pos < ids.len() && ids[pos] < id
        invariant
            pos <= ids@.len(),
            ids@ == old(ids)@,
            forall|a: int, b: int| 0 <= a < b < ids@.len() ==> ids@[a] < ids@[b],
            forall|j: int| 0 <= j < pos ==> #[trigger] ids@[j] < id,
        decreases ids@.len() - pos,
    {
        pos += 1;
    }
    if pos < ids.len() {
        let cur = ids[pos];
        if cur == id {
            proof {
                assert(ids@[pos as int] == id);
            }
            return ;
        }
    }
    ids.insert(pos, id);
    proof {
        assert(ids@[pos as int] == id);
        assert forall|a: int, b: int| 0 <= a < b < ids@.len() implies ids@[a] < ids@[b] by {
            let v0 = old(ids)@;
            let v1 = ids@;
            if b < pos {
                assert(v1[a] == v0[a] && v1[b] == v0[b]);
            } else if a > pos {
                assert(v1[a] == v0[a - 1] && v1[b] == v0[b - 1]);
            } else if a < pos && b == pos {
                assert(v1[a] == v0[a] && v0[a] < id);
            } else if a == pos && b > pos {
                assert(v1[b] == v0[b - 1]);
                assert(v0[b - 1] >= v0[pos as int]);
                assert(v0[pos as int] > id || v0[pos as int] == id);
            } else if a < pos && b > pos {
                assert(v1[a] == v0[a] && v1[b] == v0[b - 1]);
                assert(v0[a] < id);
                assert(v0[b - 1] >= v0[pos as int]);
            }
        }
        assert forall|j: int| 0 <= j < old(ids)@.len() implies exists|i: int|
            0 <= i < ids@.len() && ids@[i] == #[trigger] old(ids)@[j] by {
            if j < pos {
                assert(ids@[j] == old(ids)@[j]);
            } else {
                assert(ids@[j + 1] == old(ids)@[j]);
            }
        }
    }
}

/// Every id in `r` is the id of some name in `names`.
pub open spec fn ids_from_names(r: Seq<u64>, names: Seq<String>) -> bool {
    forall|i: int|
        #![trigger r[i]]
        0 <= i < r.len() ==> exists|j: int|
            #![trigger names[j]]
            0 <= j < names.len() && log_file_id(vstd::utf8::encode_utf8(names[j]@)) == Some(r[i])
}

/// Every segment-file name among the first `upto` of `names` has its id in
/// `r`.
pub open spec fn names_covered(names: Seq<String>, upto: int, r: Seq<u64>) -> bool {
    forall|j: int|
        0 <= j < upto ==> (#[trigger] log_file_id(
            vstd::utf8::encode_utf8(names[j]@),
        ) matches Some(id) ==> exists|i: int| 0 <= i < r.len() && r[i] == id)
}

/// Turn a directory's file names into the sorted ids of its segment
/// files: every `<decimal>.log` name contributes its id, anything else is
/// ignored, and the ids come back strictly ascending.
#[verifier::rlimit(100)]
#[verifier::spinoff_prover]
pub fn get_file_ids(names: &Vec<String>) -> (r: Vec<u64>)
    ensures
        forall|a: int, b: int| 0 <= a < b < r@.len() ==> r@[a] < r@[b],
        ids_from_names(r@, names@),
        names_covered(names@, names@.len() as int, r@),
{
    let mut ids: Vec<u64> = Vec::new();
    let mut ni: usize = 0;
    while ni < names.len()
        invariant
            ni <= names@.len(),
            forall|a: int, b: int| 0 <= a < b < ids@.len() ==> ids@[a] < ids@[b],
            ids_from_names(ids@, names@),
            names_covered(names@, ni as int, ids@),
        decreases names@.len() - ni,
    {
        let ghost pre_ids = ids@;
        let parsed = parse_log_name(names[ni].as_str());
        match parsed {
            Some(id) => {
                let ghost ids0 = ids@;
                insert_sorted(&mut ids, id);
                proof {
                    assert forall|i: int|
                        #![trigger ids@[i]]
                        0 <= i < ids@.len() implies exists|j: int|
                        #![trigger names@[j]]
                        0 <= j < names@.len() && log_file_id(vstd::utf8::encode_utf8(names@[j]@))
                            == Some(ids@[i]) by {
                        if ids@[i] == id {
                            assert(0 <= ni < names@.len() && log_file_id(
                                vstd::utf8::encode_utf8(names@[ni as int]@),
                            ) == Some(ids@[i]));
                        } else {
                            let j0 = choose|j0: int| 0 <= j0 < ids0.len() && ids0[j0] == ids@[i];
                            assert(ids_from_names(ids0, names@));
                            let j = choose|j: int|
                                #![trigger names@[j]]
                                0 <= j < names@.len() && log_file_id(
                                    vstd::utf8::encode_utf8(names@[j]@),
                                ) == Some(ids0[j0]);
                            assert(0 <= j < names@.len() && log_file_id(
                                vstd::utf8::encode_utf8(names@[j]@),
                            ) == Some(ids@[i]));
                        }
                    }
                    assert(ids_from_names(ids@, names@));
                }
            },
            None => {},
        }
        proof {
            assert forall|j: int| 0 <= j < ni + 1 implies (#[trigger] log_file_id(
                vstd::utf8::encode_utf8(names@[j]@),
            ) matches Some(idj) ==> exists|i: int| 0 <= i < ids@.len() && ids@[i] == idj) by {
                let lf = log_file_id(vstd::utf8::encode_utf8(names@[j]@));
                if lf is Some && j < ni {
                    let idj = lf->Some_0;
                    assert(names_covered(names@, ni as int, pre_ids));
                    let i0 = choose|i0: int| 0 <= i0 < pre_ids.len() && pre_ids[i0] == idj;
                    assert(exists|i: int| 0 <= i < ids@.len() && ids@[i] == pre_ids[i0]);
                }
            }
            assert(names_covered(names@, ni + 1, ids@));
        }
        ni += 1;
    }
    ids
}

/// No lost updates: after a run of `set` steps over pairwise-distinct
/// keys, in any order, every key reads back exactly the value written for
/// it.
pub proof fn lemma_no_lost_updates(
    m: Map<Seq<char>, Seq<char>>,
    pairs: Seq<(Seq<char>, Seq<char>)>,
    i: int,
)
    requires
        0 <= i < pairs.len(),
        forall|a: int, b: int|
            0 <= a < b < pairs.len() ==> (#[trigger] pairs[a].0) != (#[trigger] pairs[b].0),
    ensures
        apply_sets(m, pairs).dom().contains(pairs[i].0),
        apply_sets(m, pairs)[pairs[i].0] == pairs[i].1,
    decreases pairs.len(),
{
    if i == 0 {
        let m1 = m.insert(pairs[0].0, pairs[0].1);
        assert forall|j: int| 0 <= j < pairs.skip(1).len() implies (#[trigger] pairs.skip(1)[j].0)
            != pairs[0].0 by {
            assert(pairs.skip(1)[j].0 == pairs[j + 1].0);
        }
        lemma_apply_sets_frame(m1, pairs.skip(1), pairs[0].0);
    } else {
        let m1 = m.insert(pairs[0].0, pairs[0].1);
        assert(forall|a: int, b: int|
            0 <= a < b < pairs.skip(1).len() ==> (#[trigger] pairs.skip(1)[a].0) != (
            #[trigger] pairs.skip(1)[b].0));
        lemma_no_lost_updates(m1, pairs.skip(1), i - 1);
        assert(pairs.skip(1)[i - 1] == pairs[i]);
    }
}

} // verus!
