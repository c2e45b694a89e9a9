use vstd::prelude::*;

use crate::codec::{
    blob, bodies_fit, decode_records, encode_record, push_all, push_u32, record_bytes, le_u32, lemma_log_shift,
    lemma_records_roundtrip, lemma_records_torn, log_records, read_u32_at, record_view,
    records_bytes, u32_le,
};
use crate::query::opt_view;
use crate::store::{
    bad_uri, committed_as, is_blank, next_timestamp, valid_uri, Draft, Frame, PutOptions, Store,
    StoreError,
};
use crate::layout::{lemma_log_prefix, lemma_records_bytes_push};
use crate::text::terms_view;

verus! {

/// A staged frame.
pub const KIND_FRAME: u8 = 1;

/// The end of a transaction: every frame staged since the previous one
/// becomes committed.
pub const KIND_COMMIT: u8 = 2;

/// The lexical index is turned on.
pub const KIND_ENABLE_LEX: u8 = 3;

/// A frame is marked active or inactive.
pub const KIND_SET_ACTIVE: u8 = 4;

/// The bytes that open every store file.
pub open spec fn magic() -> Seq<u8> {
    seq![77u8, 86u8, 50u8, 76u8]
}

/// The abstract content of a draft.
pub struct DraftView {
    pub payload: Seq<u8>,
    pub uri: Option<Seq<u8>>,
    pub title: Option<Seq<u8>>,
    pub tags: Seq<Seq<u8>>,
}

pub open spec fn draft_view(d: Draft) -> DraftView {
    DraftView {
        payload: d.payload@,
        uri: opt_view(d.uri),
        title: opt_view(d.title),
        tags: terms_view(d.tags@),
    }
}

/// A length-prefixed byte string at `pos`, and where it ends.
pub open spec fn read_blob(s: Seq<u8>, pos: int) -> Option<(Seq<u8>, int)> {
    if 0 <= pos && pos + 4 <= s.len() {
        let n = le_u32(s, pos) as int;
        if pos + 4 + n <= s.len() {
            Some((s.subrange(pos + 4, pos + 4 + n), pos + 4 + n))
        } else {
            None
        }
    } else {
        None
    }
}

/// An optional byte string at `pos`: a 0 byte, or a 1 byte and a blob.
pub open spec fn read_opt(s: Seq<u8>, pos: int) -> Option<(Option<Seq<u8>>, int)> {
    if pos < 0 || pos >= s.len() {
        None
    } else if s[pos] == 0 {
        Some((None, pos + 1))
    } else if s[pos] == 1 {
        match read_blob(s, pos + 1) {
            Some((b, p)) => Some((Some(b), p)),
            None => None,
        }
    } else {
        None
    }
}

/// `n` blobs one after another from `pos`.
pub open spec fn read_blobs(s: Seq<u8>, pos: int, n: nat) -> Option<(Seq<Seq<u8>>, int)>
    decreases n,
{
    if n == 0 {
        Some((seq![], pos))
    } else {
        match read_blobs(s, pos, (n - 1) as nat) {
            Some((bs, p)) => match read_blob(s, p) {
                Some((b, q)) => Some((bs.push(b), q)),
                None => None,
            },
            None => None,
        }
    }
}

/// Decodes the body of a frame record: payload, uri, title, tag count and
/// tags, with no byte left over.
pub open spec fn parse_draft(s: Seq<u8>) -> Option<DraftView> {
    match read_blob(s, 0) {
        Some((p, a)) => match read_opt(s, a) {
            Some((u, b)) => match read_opt(s, b) {
                Some((t, c)) => if c + 4 <= s.len() {
                    match read_blobs(s, c + 4, le_u32(s, c) as nat) {
                        Some((tags, e)) => if e == s.len() {
                            Some(DraftView { payload: p, uri: u, title: t, tags })
                        } else {
                            None
                        },
                        None => None,
                    }
                } else {
                    None
                },
                None => None,
            },
            None => None,
        },
        None => None,
    }
}

/// The bytes of an optional byte string.
pub open spec fn opt_blob(o: Option<Seq<u8>>) -> Seq<u8> {
    match o {
        Some(b) => seq![1u8] + blob(b),
        None => seq![0u8],
    }
}

/// The bytes of blobs one after another.
pub open spec fn blobs_bytes(bs: Seq<Seq<u8>>) -> Seq<u8>
    decreases bs.len(),
{
    if bs.len() == 0 {
        seq![]
    } else {
        blobs_bytes(bs.drop_last()) + blob(bs.last())
    }
}

/// The body of the frame record of a draft.
pub open spec fn draft_bytes(d: DraftView) -> Seq<u8> {
    blob(d.payload) + opt_blob(d.uri) + opt_blob(d.title) + u32_le(d.tags.len() as u32)
        + blobs_bytes(d.tags)
}

/// Every length of a draft fits in a `u32`.
pub open spec fn draft_fits(d: DraftView) -> bool {
    &&& d.payload.len() < 4294967296
    &&& (d.uri matches Some(u) ==> u.len() < 4294967296)
    &&& (d.title matches Some(t) ==> t.len() < 4294967296)
    &&& d.tags.len() < 4294967296
    &&& forall|i: int| 0 <= i < d.tags.len() ==> (#[trigger] d.tags[i]).len() < 4294967296
}

/// The body of a commit record: the commit time, as 8 little-endian bytes.
pub open spec fn ts_bytes(t: i64) -> Seq<u8> {
    u32_le(((t as u64) & 0xffff_ffff) as u32) + u32_le(((t as u64) >> 32u64) as u32)
}

/// Decodes the body of a commit record.
pub open spec fn parse_ts(s: Seq<u8>) -> Option<i64> {
    if s.len() == 8 {
        Some((((le_u32(s, 4) as u64) << 32u64) | (le_u32(s, 0) as u64)) as i64)
    } else {
        None
    }
}

/// The records of a log up to and including its last commit; what follows
/// is a transaction that never finished.
pub open spec fn committed_prefix(rs: Seq<(u8, Seq<u8>)>) -> Seq<(u8, Seq<u8>)>
    decreases rs.len(),
{
    if rs.len() == 0 || rs.last().0 == KIND_COMMIT {
        rs
    } else {
        committed_prefix(rs.drop_last())
    }
}

/// The number of frame records.
pub open spec fn frame_records(rs: Seq<(u8, Seq<u8>)>) -> nat
    decreases rs.len(),
{
    if rs.len() == 0 {
        0
    } else {
        frame_records(rs.drop_last()) + if rs.last().0 == KIND_FRAME {
            1nat
        } else {
            0nat
        }
    }
}

/// The committed records of a store file.
pub open spec fn file_records(bytes: Seq<u8>) -> Seq<(u8, Seq<u8>)> {
    committed_prefix(log_records(bytes, 4))
}

/// The number of frames that a store file holds once reopened.
pub open spec fn file_frame_count(bytes: Seq<u8>) -> nat {
    frame_records(file_records(bytes))
}

/// The abstract content of a frame.
pub struct FrameView {
    pub frame_id: u64,
    pub uri: Option<Seq<u8>>,
    pub title: Option<Seq<u8>>,
    pub tags: Seq<Seq<u8>>,
    pub timestamp: i64,
    pub payload: Seq<u8>,
    pub active: bool,
    pub deactivated_at: Option<u64>,
}

pub open spec fn frame_view(f: Frame) -> FrameView {
    FrameView {
        frame_id: f.frame_id,
        uri: opt_view(f.uri),
        title: opt_view(f.title),
        tags: terms_view(f.tags@),
        timestamp: f.timestamp,
        payload: f.payload@,
        active: f.active,
        deactivated_at: f.deactivated_at,
    }
}

/// The abstract content of the frames of a log.
pub open spec fn frames_view(fs: Seq<Frame>) -> Seq<FrameView> {
    fs.map_values(|f: Frame| frame_view(f))
}

/// The abstract content of staged drafts.
pub open spec fn drafts_view(ds: Seq<Draft>) -> Seq<DraftView> {
    ds.map_values(|d: Draft| draft_view(d))
}

/// What replaying a log's records has built: the committed frames, the
/// drafts staged since the last commit, whether the lexical index is on, and
/// whether every record so far was accepted. Replay stops at the first record
/// that is not: its body does not decode, or the store refuses its operation.
pub struct Replay {
    pub frames: Seq<FrameView>,
    pub staged: Seq<DraftView>,
    pub lex: bool,
    pub ok: bool,
}

/// The store accepts a draft: its payload is not blank, its uri (if any) is
/// well formed, and an id is left for it.
pub open spec fn draft_accepted(st: Replay, d: DraftView) -> bool {
    &&& !is_blank(d.payload)
    &&& (d.uri matches Some(u) ==> valid_uri(u))
    &&& st.frames.len() + st.staged.len() + 2 < u64::MAX
}

/// The timestamp that frames committed at `now` get after `frames`.
pub open spec fn next_time(frames: Seq<FrameView>, now: i64) -> i64 {
    if frames.len() > 0 && frames.last().timestamp > now {
        frames.last().timestamp
    } else {
        now
    }
}

/// The frames after committing the staged drafts at `now`: ids follow on,
/// all with the time `next_time(frames, now)`, all active.
pub open spec fn commit_frames(frames: Seq<FrameView>, staged: Seq<DraftView>, now: i64) -> Seq<
    FrameView,
> {
    frames + Seq::new(
        staged.len(),
        |k: int|
            FrameView {
                frame_id: (frames.len() + k + 1) as u64,
                uri: staged[k].uri,
                title: staged[k].title,
                tags: staged[k].tags,
                timestamp: next_time(frames, now),
                payload: staged[k].payload,
                active: true,
                deactivated_at: None,
            },
    )
}

/// A frame after it is set active or not while `n` frames are committed.
pub open spec fn view_with_active(f: FrameView, active: bool, n: nat) -> FrameView {
    if active {
        FrameView { active: true, deactivated_at: None, ..f }
    } else if f.active {
        FrameView { active: false, deactivated_at: Some(n as u64), ..f }
    } else {
        f
    }
}

/// The state after one more record.
pub open spec fn replay_step(st: Replay, r: (u8, Seq<u8>)) -> Replay {
    let failed = Replay { frames: st.frames, staged: seq![], lex: st.lex, ok: false };
    if !st.ok {
        st
    } else if r.0 == KIND_FRAME {
        match parse_draft(r.1) {
            Some(d) => if draft_accepted(st, d) {
                Replay { staged: st.staged.push(d), ..st }
            } else {
                failed
            },
            None => failed,
        }
    } else if r.0 == KIND_COMMIT {
        match parse_ts(r.1) {
            Some(t) => Replay {
                frames: commit_frames(st.frames, st.staged, t),
                staged: seq![],
                ..st
            },
            None => failed,
        }
    } else if r.0 == KIND_ENABLE_LEX {
        Replay { lex: true, ..st }
    } else if r.0 == KIND_SET_ACTIVE {
        match parse_set_active(r.1) {
            Some((id, a)) => if 1 <= id <= st.frames.len() {
                Replay {
                    frames: st.frames.update(
                        id - 1,
                        view_with_active(st.frames[id - 1], a, st.frames.len()),
                    ),
                    ..st
                }
            } else {
                failed
            },
            None => failed,
        }
    } else {
        failed
    }
}

/// The state that replaying the records, in order, from an empty store
/// builds.
pub open spec fn replay(rs: Seq<(u8, Seq<u8>)>) -> Replay
    decreases rs.len(),
{
    if rs.len() == 0 {
        Replay { frames: seq![], staged: seq![], lex: false, ok: true }
    } else {
        replay_step(replay(rs.drop_last()), rs.last())
    }
}

/// Every committed record of a store file is accepted on replay.
pub open spec fn replayable(bytes: Seq<u8>) -> bool {
    replay(file_records(bytes)).ok
}

/// How a store was recovered from its file.
#[derive(Debug, Clone, Copy, PartialEq, Eq, Structural)]
pub struct Recovery {
    /// Records replayed.
    pub applied: usize,
    /// Records of the committed part of the file.
    pub committed: usize,
    /// Records read after the last commit, of a transaction that never
    /// finished, and dropped.
    pub dropped: usize,
    /// Where the committed records end in the file: the file should be cut
    /// back to this length before anything is appended.
    pub end: usize,
}

proof fn lemma_committed_ends(rs: Seq<(u8, Seq<u8>)>)
    ensures
        committed_prefix(rs).len() == 0 || committed_prefix(rs).last().0 == KIND_COMMIT,
        committed_prefix(rs).len() <= rs.len(),
        committed_prefix(rs) == rs.subrange(0, committed_prefix(rs).len() as int),
    decreases rs.len(),
{
    if rs.len() == 0 || rs.last().0 == KIND_COMMIT {
        assert(rs.subrange(0, rs.len() as int) =~= rs);
    } else {
        lemma_committed_ends(rs.drop_last());
        let c = committed_prefix(rs.drop_last());
        assert(rs.drop_last().subrange(0, c.len() as int) =~= rs.subrange(0, c.len() as int));
    }
}

proof fn lemma_committed_no_commit(rs: Seq<(u8, Seq<u8>)>, q: Seq<(u8, Seq<u8>)>)
    requires
        forall|i: int| 0 <= i < q.len() ==> (#[trigger] q[i]).0 != KIND_COMMIT,
    ensures
        committed_prefix(rs + q) == committed_prefix(rs),
    decreases q.len(),
{
    if q.len() == 0 {
        assert(rs + q =~= rs);
    } else {
        let d = q.drop_last();
        assert forall|i: int| 0 <= i < d.len() implies (#[trigger] d[i]).0 != KIND_COMMIT by {
            assert(d[i] == q[i]);
        }
        lemma_committed_no_commit(rs, d);
        assert((rs + q).drop_last() =~= rs + d);
        assert((rs + q).last() == q[q.len() - 1]);
    }
}

/// The records of a store file written record after record are those
/// records.
pub proof fn lemma_file_records(rs: Seq<(u8, Seq<u8>)>, tail: Seq<u8>)
    requires
        bodies_fit(rs),
    ensures
        log_records(magic() + records_bytes(rs) + tail, 4) == rs + log_records(tail, 0),
{
    let body = records_bytes(rs) + tail;
    assert(magic() + records_bytes(rs) + tail =~= magic() + body);
    lemma_log_shift(magic(), body, 0);
    lemma_records_roundtrip(rs, tail);
}

/// A commit torn by a failed write changes nothing: when a store file holds
/// the records `rs` and the write of a transaction (frame records and the
/// commit record that ends it) stops after any strict prefix of its bytes,
/// reopening sees the same committed records, and so the same number of
/// frames, as before the transaction began.
pub proof fn law_torn_commit(rs: Seq<(u8, Seq<u8>)>, batch: Seq<(u8, Seq<u8>)>, cut: int)
    requires
        bodies_fit(rs),
        bodies_fit(batch),
        forall|i: int| 0 <= i < batch.len() - 1 ==> (#[trigger] batch[i]).0 != KIND_COMMIT,
        0 <= cut < records_bytes(batch).len(),
    ensures
        file_records(magic() + records_bytes(rs) + records_bytes(batch).subrange(0, cut))
            == file_records(magic() + records_bytes(rs)),
        file_frame_count(magic() + records_bytes(rs) + records_bytes(batch).subrange(0, cut))
            == file_frame_count(magic() + records_bytes(rs)),
        replay(file_records(magic() + records_bytes(rs) + records_bytes(batch).subrange(0, cut)))
            == replay(file_records(magic() + records_bytes(rs))),
{
    let torn = records_bytes(batch).subrange(0, cut);
    lemma_file_records(rs, torn);
    lemma_file_records(rs, seq![]);
    assert(magic() + records_bytes(rs) + seq![] =~= magic() + records_bytes(rs));
    assert(log_records(seq![], 0) =~= seq![]);
    assert(rs + seq![] =~= rs);
    lemma_records_torn(batch, cut);
    let m = choose|m: int|
        0 <= m < batch.len() && #[trigger] log_records(records_bytes(batch).subrange(0, cut), 0)
            == batch.subrange(0, m);
    let q = batch.subrange(0, m);
    assert forall|i: int| 0 <= i < q.len() implies (#[trigger] q[i]).0 != KIND_COMMIT by {
        assert(q[i] == batch[i]);
    }
    lemma_committed_no_commit(rs, q);
}

proof fn lemma_read_blobs_fail(s: Seq<u8>, pos: int, k: nat, m: nat)
    requires
        k <= m,
        read_blobs(s, pos, k) is None,
    ensures
        read_blobs(s, pos, m) is None,
    decreases m,
{
    if k < m {
        lemma_read_blobs_fail(s, pos, k, (m - 1) as nat);
    }
}

proof fn lemma_frame_records_concat(rs: Seq<(u8, Seq<u8>)>, q: Seq<(u8, Seq<u8>)>)
    ensures
        frame_records(rs + q) == frame_records(rs) + frame_records(q),
    decreases q.len(),
{
    if q.len() == 0 {
        assert(rs + q =~= rs);
    } else {
        lemma_frame_records_concat(rs, q.drop_last());
        assert((rs + q).drop_last() =~= rs + q.drop_last());
        assert((rs + q).last() == q.last());
    }
}

/// A transaction written in full is kept: when a store file holds the
/// records `rs`, up to and including a commit, and a transaction (frame
/// records, then the commit record that ends it) is appended whole,
/// reopening finds every frame of the transaction added.
#[verifier::spinoff_prover]
#[verifier::rlimit(100)]
pub proof fn law_commit_durable(rs: Seq<(u8, Seq<u8>)>, batch: Seq<(u8, Seq<u8>)>)
    requires
        bodies_fit(rs),
        bodies_fit(batch),
        rs.len() == 0 || rs.last().0 == KIND_COMMIT,
        batch.len() > 0,
        batch.last().0 == KIND_COMMIT,
    ensures
        file_frame_count(magic() + records_bytes(rs) + records_bytes(batch)) == file_frame_count(
            magic() + records_bytes(rs),
        ) + frame_records(batch),
{
    lemma_records_only(batch);
    lemma_file_records(rs, records_bytes(batch));
    lemma_file_of(rs);
    let all = rs + batch;
    assert(log_records(magic() + records_bytes(rs) + records_bytes(batch), 4) == all);
    assert(all.last() == batch.last());
    assert(committed_prefix(all) == all);
    lemma_frame_records_concat(rs, batch);
}

proof fn lemma_records_only(rs: Seq<(u8, Seq<u8>)>)
    requires
        bodies_fit(rs),
    ensures
        log_records(records_bytes(rs), 0) == rs,
{
    lemma_records_roundtrip(rs, seq![]);
    assert(records_bytes(rs) + seq![] =~= records_bytes(rs));
    assert(log_records(seq![], 0) =~= seq![]);
    assert(rs + seq![] =~= rs);
}

proof fn lemma_read_blob(s: Seq<u8>, pos: int, b: Seq<u8>)
    requires
        0 <= pos,
        b.len() < 4294967296,
        pos + 4 + b.len() <= s.len(),
        s.subrange(pos, pos + 4 + b.len()) == blob(b),
    ensures
        read_blob(s, pos) == Some((b, pos + 4 + b.len())),
{
    let n = b.len() as int;
    assert(s.subrange(pos, pos + 4) =~= blob(b).subrange(0, 4));
    assert(blob(b).subrange(0, 4) =~= u32_le(n as u32));
    crate::codec::lemma_read_u32(s, pos, n as u32);
    assert(s.subrange(pos + 4, pos + 4 + n) =~= blob(b).subrange(4, 4 + n));
    assert(blob(b).subrange(4, 4 + n) =~= b);
}

proof fn lemma_read_opt(s: Seq<u8>, pos: int, o: Option<Seq<u8>>)
    requires
        0 <= pos,
        o matches Some(b) ==> b.len() < 4294967296,
        pos + opt_blob(o).len() <= s.len(),
        s.subrange(pos, pos + opt_blob(o).len()) == opt_blob(o),
    ensures
        read_opt(s, pos) == Some((o, pos + opt_blob(o).len())),
{
    assert(s[pos] == s.subrange(pos, pos + opt_blob(o).len())[0]);
    match o {
        Some(b) => {
            let e = opt_blob(o);
            assert(s.subrange(pos + 1, pos + 1 + 4 + b.len()) =~= e.subrange(1, e.len() as int));
            assert(e.subrange(1, e.len() as int) =~= blob(b));
            lemma_read_blob(s, pos + 1, b);
        },
        None => {},
    }
}

proof fn lemma_read_blobs(s: Seq<u8>, pos: int, bs: Seq<Seq<u8>>)
    requires
        0 <= pos,
        forall|i: int| 0 <= i < bs.len() ==> (#[trigger] bs[i]).len() < 4294967296,
        pos + blobs_bytes(bs).len() <= s.len(),
        s.subrange(pos, pos + blobs_bytes(bs).len()) == blobs_bytes(bs),
    ensures
        read_blobs(s, pos, bs.len()) == Some((bs, pos + blobs_bytes(bs).len())),
    decreases bs.len(),
{
    if bs.len() == 0 {
        assert(bs =~= seq![]);
    } else {
        let d = bs.drop_last();
        let x = bs.last();
        let m = blobs_bytes(d).len() as int;
        let all = blobs_bytes(bs);
        assert(all == blobs_bytes(d) + blob(x));
        assert(s.subrange(pos, pos + m) =~= all.subrange(0, m));
        assert(all.subrange(0, m) =~= blobs_bytes(d));
        assert forall|i: int| 0 <= i < d.len() implies (#[trigger] d[i]).len() < 4294967296 by {
            assert(d[i] == bs[i]);
        }
        lemma_read_blobs(s, pos, d);
        assert(s.subrange(pos + m, pos + all.len()) =~= all.subrange(m, all.len() as int));
        assert(all.subrange(m, all.len() as int) =~= blob(x));
        assert(x == bs[bs.len() - 1]);
        lemma_read_blob(s, pos + m, x);
        assert(d.push(x) =~= bs);
    }
}

/// A draft is read back from the body of its frame record.
#[verifier::rlimit(60)]
pub proof fn lemma_draft_roundtrip(d: DraftView)
    requires
        draft_fits(d),
    ensures
        parse_draft(draft_bytes(d)) == Some(d),
{
    let a_ = blob(d.payload);
    let b_ = opt_blob(d.uri);
    let c_ = opt_blob(d.title);
    let n_ = u32_le(d.tags.len() as u32);
    let e_ = blobs_bytes(d.tags);
    let s = draft_bytes(d);
    assert(s =~= a_ + (b_ + (c_ + (n_ + e_))));
    let a = a_.len() as int;
    let b = a + b_.len();
    let c = b + c_.len();
    assert(s.subrange(0, a) =~= a_);
    lemma_read_blob(s, 0, d.payload);
    assert(s.subrange(a, b) =~= b_);
    lemma_read_opt(s, a, d.uri);
    assert(s.subrange(b, c) =~= c_);
    lemma_read_opt(s, b, d.title);
    assert(s.subrange(c, c + 4) =~= n_);
    crate::codec::lemma_read_u32(s, c, d.tags.len() as u32);
    assert(s.subrange(c + 4, s.len() as int) =~= e_);
    lemma_read_blobs(s, c + 4, d.tags);
}

proof fn lemma_file_of(rs: Seq<(u8, Seq<u8>)>)
    requires
        bodies_fit(rs),
        rs.len() == 0 || rs.last().0 == KIND_COMMIT,
    ensures
        file_records(magic() + records_bytes(rs)) == rs,
{
    lemma_file_records(rs, seq![]);
    assert(magic() + records_bytes(rs) + seq![] =~= magic() + records_bytes(rs));
    assert(log_records(seq![], 0) =~= seq![]);
    assert(rs + seq![] =~= rs);
}

/// A new store file, its header followed by the record that turns the
/// lexical index on and a commit, reopens to a store with no frame and the
/// index on.
pub proof fn law_created_file(t: i64)
    ensures
        records_bytes(seq![(KIND_ENABLE_LEX, Seq::<u8>::empty()), (KIND_COMMIT, ts_bytes(t))])
            == record_bytes(KIND_ENABLE_LEX, seq![]) + record_bytes(KIND_COMMIT, ts_bytes(t)),
        replay(
            file_records(
                magic() + records_bytes(
                    seq![(KIND_ENABLE_LEX, Seq::<u8>::empty()), (KIND_COMMIT, ts_bytes(t))],
                ),
            ),
        ) == (Replay { frames: seq![], staged: seq![], lex: true, ok: true }),
{
    let e: Seq<(u8, Seq<u8>)> = seq![];
    let a = e.push((KIND_ENABLE_LEX, Seq::<u8>::empty()));
    let rs = a.push((KIND_COMMIT, ts_bytes(t)));
    assert(rs =~= seq![(KIND_ENABLE_LEX, Seq::<u8>::empty()), (KIND_COMMIT, ts_bytes(t))]);
    lemma_records_bytes_push(e, (KIND_ENABLE_LEX, Seq::<u8>::empty()));
    lemma_records_bytes_push(a, (KIND_COMMIT, ts_bytes(t)));
    assert(records_bytes(e) =~= Seq::<u8>::empty());
    assert(records_bytes(rs) =~= record_bytes(KIND_ENABLE_LEX, seq![]) + record_bytes(
        KIND_COMMIT,
        ts_bytes(t),
    ));
    assert(ts_bytes(t).len() == 8);
    assert(bodies_fit(rs));
    lemma_file_of(rs);
    lemma_ts_roundtrip(t);
    assert(rs.drop_last() =~= a);
    assert(a.drop_last() =~= e);
    assert(replay(e).frames =~= Seq::<FrameView>::empty());
    assert(replay(a).lex && replay(a).ok);
    assert(replay(a).staged =~= Seq::<DraftView>::empty());
    assert(commit_frames(replay(a).frames, replay(a).staged, t) =~= Seq::<FrameView>::empty());
    assert(replay(rs).frames =~= Seq::<FrameView>::empty());
    assert(replay(rs).staged =~= Seq::<DraftView>::empty());
}

/// A put appended to a store file is kept on reopening: when a file holds
/// the records `rs`, which replay in full and end with a commit, and a
/// transaction is appended (the record that turns the lexical index on,
/// where `with_lex` holds; the frame record of the draft `d`; the commit
/// record of time `t`), reopening replays in full and finds the earlier
/// frames followed by `d`, committed at `t` with the next id, and the
/// index on where it was on or the transaction turned it on.
#[verifier::rlimit(60)]
pub proof fn law_put_reopens(rs: Seq<(u8, Seq<u8>)>, with_lex: bool, d: DraftView, t: i64)
    requires
        bodies_fit(rs),
        rs.len() == 0 || rs.last().0 == KIND_COMMIT,
        replay(rs).ok,
        draft_fits(d),
        draft_bytes(d).len() < 4294967296,
        draft_accepted(replay(rs), d),
    ensures
        ({
            let pre = if with_lex {
                rs.push((KIND_ENABLE_LEX, Seq::<u8>::empty()))
            } else {
                rs
            };
            let all = pre.push((KIND_FRAME, draft_bytes(d))).push((KIND_COMMIT, ts_bytes(t)));
            &&& records_bytes(all) == records_bytes(rs) + (if with_lex {
                record_bytes(KIND_ENABLE_LEX, seq![])
            } else {
                seq![]
            }) + record_bytes(KIND_FRAME, draft_bytes(d)) + record_bytes(KIND_COMMIT, ts_bytes(t))
            &&& replay(file_records(magic() + records_bytes(all))) == (Replay {
                frames: commit_frames(replay(rs).frames, seq![d], t),
                staged: seq![],
                lex: replay(rs).lex || with_lex,
                ok: true,
            })
        }),
{
    let pre = if with_lex {
        rs.push((KIND_ENABLE_LEX, Seq::<u8>::empty()))
    } else {
        rs
    };
    let mid = pre.push((KIND_FRAME, draft_bytes(d)));
    let all = mid.push((KIND_COMMIT, ts_bytes(t)));
    lemma_replay_failed(rs);
    assert(replay(rs).staged.len() == 0);
    if with_lex {
        lemma_records_bytes_push(rs, (KIND_ENABLE_LEX, Seq::<u8>::empty()));
        assert(pre.drop_last() =~= rs);
    }
    lemma_records_bytes_push(pre, (KIND_FRAME, draft_bytes(d)));
    lemma_records_bytes_push(mid, (KIND_COMMIT, ts_bytes(t)));
    if !with_lex {
        assert(records_bytes(rs) + seq![] =~= records_bytes(rs));
    }
    assert(records_bytes(all) =~= records_bytes(rs) + (if with_lex {
        record_bytes(KIND_ENABLE_LEX, seq![])
    } else {
        seq![]
    }) + record_bytes(KIND_FRAME, draft_bytes(d)) + record_bytes(KIND_COMMIT, ts_bytes(t)));
    assert(ts_bytes(t).len() == 8);
    assert(bodies_fit(all)) by {
        assert forall|i: int| 0 <= i < all.len() implies (#[trigger] all[i]).1.len()
            < 4294967296 by {
            if i < rs.len() {
                assert(all[i] == rs[i]);
            }
        }
    }
    lemma_file_of(all);
    lemma_draft_roundtrip(d);
    lemma_ts_roundtrip(t);
    assert(all.drop_last() =~= mid);
    assert(mid.drop_last() =~= pre);
    let s0 = replay(pre);
    assert(s0.frames == replay(rs).frames && s0.staged.len() == 0 && s0.ok);
    assert(s0.lex == (replay(rs).lex || with_lex));
    let s1 = replay(mid);
    assert(s1.staged =~= seq![d]);
    assert(s1.frames == s0.frames);
}

/// Cutting a store file back to the end of its committed records, as
/// `Recovery::end` gives it, keeps every committed record: the cut file
/// reopens to the same store.
pub proof fn law_truncate_to_committed(bytes: Seq<u8>)
    requires
        bytes.len() >= 4,
        bytes.subrange(0, 4) == magic(),
    ensures
        4 + records_bytes(file_records(bytes)).len() <= bytes.len(),
        file_records(bytes.subrange(0, 4 + records_bytes(file_records(bytes)).len() as int)) == file_records(
            bytes,
        ),
        replay(file_records(bytes.subrange(0, 4 + records_bytes(file_records(bytes)).len() as int)))
            == replay(file_records(bytes)),
{
    let all = log_records(bytes, 4);
    let fr = file_records(bytes);
    lemma_committed_ends(all);
    lemma_log_prefix(bytes, 4, fr.len() as int);
    assert(all.subrange(0, fr.len() as int) == fr);
    let e = 4 + records_bytes(fr).len() as int;
    assert(bytes.subrange(0, e) =~= magic() + records_bytes(fr)) by {
        assert(bytes.subrange(0, e) =~= bytes.subrange(0, 4) + bytes.subrange(4, e));
    }
    lemma_file_of(fr);
}

fn read_blob_at(s: &Vec<u8>, pos: usize) -> (r: Option<(Vec<u8>, usize)>)
    ensures
        match r {
            Some((b, p)) => read_blob(s@, pos as int) == Some((b@, p as int)),
            None => read_blob(s@, pos as int) is None,
        },
{
    if pos > s.len() || s.len() - pos < 4 {
        return None;
    }
    let n = read_u32_at(s, pos) as usize;
    if s.len() - pos - 4 < n {
        return None;
    }
    let start = pos + 4;
    let end = start + n;
    let mut b: Vec<u8> = Vec::new();
    let mut i: usize = start;
    while i < end
        invariant
            start <= i <= end <= s@.len(),
            b@ == s@.subrange(start as int, i as int),
        decreases end - i,
    {
        b.push(s[i]);
        proof {
            assert(b@ =~= s@.subrange(start as int, i + 1));
        }
        i = i + 1;
    }
    Some((b, end))
}

fn read_opt_at(s: &Vec<u8>, pos: usize) -> (r: Option<(Option<Vec<u8>>, usize)>)
    ensures
        match r {
            Some((o, p)) => read_opt(s@, pos as int) == Some((opt_view(o), p as int)),
            None => read_opt(s@, pos as int) is None,
        },
{
    if pos >= s.len() {
        return None;
    }
    if s[pos] == 0 {
        Some((None, pos + 1))
    } else if s[pos] == 1 {
        match read_blob_at(s, pos + 1) {
            Some((b, p)) => Some((Some(b), p)),
            None => None,
        }
    } else {
        None
    }
}

/// Decodes the body of a frame record, as `parse_draft` says.
pub fn decode_draft(s: &Vec<u8>) -> (r: Option<Draft>)
    ensures
        match r {
            Some(d) => parse_draft(s@) == Some(draft_view(d)),
            None => parse_draft(s@) is None,
        },
{
    let (payload, a) = match read_blob_at(s, 0) {
        Some(x) => x,
        None => {
            return None;
        },
    };
    let (uri, b) = match read_opt_at(s, a) {
        Some(x) => x,
        None => {
            return None;
        },
    };
    let (title, c) = match read_opt_at(s, b) {
        Some(x) => x,
        None => {
            return None;
        },
    };
    if c > s.len() || s.len() - c < 4 {
        return None;
    }
    let n = read_u32_at(s, c);
    let mut tags: Vec<Vec<u8>> = Vec::new();
    let mut p: usize = c + 4;
    let mut k: u32 = 0;
    while k < n
        invariant
            read_blob(s@, 0) == Some((payload@, a as int)),
            read_opt(s@, a as int) == Some((opt_view(uri), b as int)),
            read_opt(s@, b as int) == Some((opt_view(title), c as int)),
            c + 4 <= s@.len(),
            n == le_u32(s@, c as int),
            k <= n,
            read_blobs(s@, c + 4, k as nat) == Some((terms_view(tags@), p as int)),
        decreases n - k,
    {
        match read_blob_at(s, p) {
            Some((t, q)) => {
                let ghost before = tags@;
                tags.push(t);
                proof {
                    assert(terms_view(tags@) =~= terms_view(before).push(t@));
                }
                p = q;
            },
            None => {
                proof {
                    assert(read_blobs(s@, c + 4, (k + 1) as nat) is None);
                    lemma_read_blobs_fail(s@, c + 4, (k + 1) as nat, n as nat);
                    assert(read_blobs(s@, c + 4, le_u32(s@, c as int) as nat) is None);
                }
                return None;
            },
        }
        k = k + 1;
    }
    if p != s.len() {
        return None;
    }
    Some(Draft { payload, uri, title, tags })
}

/// Decodes the body of a commit record, as `parse_ts` says.
pub fn decode_ts(s: &Vec<u8>) -> (r: Option<i64>)
    ensures
        r == parse_ts(s@),
{
    if s.len() != 8 {
        return None;
    }
    let lo = read_u32_at(s, 0);
    let hi = read_u32_at(s, 4);
    Some((((hi as u64) << 32u64) | (lo as u64)) as i64)
}

/// Decodes the body of a set-active record: a frame id, 8 bytes
/// little-endian, and a flag byte.
pub open spec fn parse_set_active(s: Seq<u8>) -> Option<(u64, bool)> {
    if s.len() == 9 && (s[8] == 0 || s[8] == 1) {
        Some((((le_u32(s, 4) as u64) << 32u64) | (le_u32(s, 0) as u64), s[8] == 1))
    } else {
        None
    }
}

fn decode_set_active(s: &Vec<u8>) -> (r: Option<(u64, bool)>)
    ensures
        r == parse_set_active(s@),
{
    if s.len() != 9 || (s[8] != 0 && s[8] != 1) {
        return None;
    }
    let lo = read_u32_at(s, 0);
    let hi = read_u32_at(s, 4);
    Some((((hi as u64) << 32u64) | (lo as u64), s[8] == 1))
}

/// The header of a new store file.
pub fn file_header() -> (r: Vec<u8>)
    ensures
        r@ == magic(),
{
    let r = vec![77u8, 86u8, 50u8, 76u8];
    proof {
        assert(r@ =~= magic());
    }
    r
}

fn push_blob(out: &mut Vec<u8>, b: &Vec<u8>)
    requires
        b@.len() < 4294967296,
    ensures
        final(out)@ == old(out)@ + blob(b@),
{
    push_u32(out, b.len() as u32);
    push_all(out, b);
    proof {
        assert(final(out)@ =~= old(out)@ + blob(b@));
    }
}

fn push_opt(out: &mut Vec<u8>, o: &Option<Vec<u8>>)
    requires
        o matches Some(b) ==> b@.len() < 4294967296,
    ensures
        final(out)@ == old(out)@ + opt_blob(opt_view(*o)),
{
    match o {
        Some(b) => {
            out.push(1u8);
            push_blob(out, b);
            proof {
                assert(final(out)@ =~= old(out)@ + opt_blob(opt_view(*o)));
            }
        },
        None => {
            out.push(0u8);
            proof {
                assert(final(out)@ =~= old(out)@ + opt_blob(opt_view(*o)));
            }
        },
    }
}

/// The bytes of the frame record that stages a draft; `None` where a length
/// does not fit the format.
pub fn encode_frame_record(payload: &Vec<u8>, opts: &PutOptions) -> (r: Option<Vec<u8>>)
    ensures
        ({
            let d = DraftView {
                payload: payload@,
                uri: opt_view(opts.uri),
                title: opt_view(opts.title),
                tags: terms_view(opts.tags@),
            };
            &&& r is Some <==> draft_fits(d) && draft_bytes(d).len() < 4294967296
            &&& r matches Some(b) ==> b@ == record_bytes(KIND_FRAME, draft_bytes(d))
        }),
{
    let ghost d = DraftView {
        payload: payload@,
        uri: opt_view(opts.uri),
        title: opt_view(opts.title),
        tags: terms_view(opts.tags@),
    };
    if payload.len() as u64 >= 4294967296 {
        return None;
    }
    match &opts.uri {
        Some(u) => {
            if u.len() as u64 >= 4294967296 {
                return None;
            }
        },
        None => {},
    }
    match &opts.title {
        Some(t) => {
            if t.len() as u64 >= 4294967296 {
                return None;
            }
        },
        None => {},
    }
    if opts.tags.len() as u64 >= 4294967296 {
        return None;
    }
    let mut j: usize = 0;
    while j < opts.tags.len()
        invariant
            j <= opts.tags@.len(),
            forall|i: int| 0 <= i < j ==> (#[trigger] opts.tags@[i])@.len() < 4294967296,
        decreases opts.tags@.len() - j,
    {
        if opts.tags[j].len() as u64 >= 4294967296 {
            proof {
                assert(terms_view(opts.tags@)[j as int].len() >= 4294967296);
            }
            return None;
        }
        j = j + 1;
    }
    proof {
        assert forall|i: int| 0 <= i < d.tags.len() implies (#[trigger] d.tags[i]).len()
            < 4294967296 by {
            assert(d.tags[i] == opts.tags@[i]@);
        }
    }
    let mut body: Vec<u8> = Vec::new();
    push_blob(&mut body, payload);
    push_opt(&mut body, &opts.uri);
    push_opt(&mut body, &opts.title);
    push_u32(&mut body, opts.tags.len() as u32);
    let ghost head = body@;
    let mut k: usize = 0;
    while k < opts.tags.len()
        invariant
            k <= opts.tags@.len(),
            d.tags == terms_view(opts.tags@),
            forall|i: int| 0 <= i < opts.tags@.len() ==> (#[trigger] opts.tags@[i])@.len() < 4294967296,
            body@ == head + blobs_bytes(d.tags.subrange(0, k as int)),
        decreases opts.tags@.len() - k,
    {
        let ghost before = body@;
        push_blob(&mut body, &opts.tags[k]);
        proof {
            let sub = d.tags.subrange(0, k + 1);
            assert(sub.drop_last() =~= d.tags.subrange(0, k as int));
            assert(sub.last() == opts.tags@[k as int]@);
            assert(body@ =~= head + blobs_bytes(sub));
        }
        k = k + 1;
    }
    proof {
        assert(d.tags.subrange(0, k as int) =~= d.tags);
        assert(body@ =~= draft_bytes(d));
    }
    if body.len() as u64 >= 4294967296 {
        return None;
    }
    Some(encode_record(KIND_FRAME, &body))
}

/// The bytes of the commit record of a transaction committed at `ts`.
pub fn encode_commit_record(ts: i64) -> (r: Vec<u8>)
    ensures
        r@ == record_bytes(KIND_COMMIT, ts_bytes(ts)),
{
    let x = ts as u64;
    let lo = (x & 0xffff_ffff) as u32;
    let hi = (x >> 32u64) as u32;
    let mut body: Vec<u8> = Vec::new();
    push_u32(&mut body, lo);
    push_u32(&mut body, hi);
    proof {
        assert(body@ =~= ts_bytes(ts));
    }
    encode_record(KIND_COMMIT, &body)
}

/// The bytes of the record that turns the lexical index on.
pub fn encode_enable_lex_record() -> (r: Vec<u8>)
    ensures
        r@ == record_bytes(KIND_ENABLE_LEX, seq![]),
{
    let body: Vec<u8> = Vec::new();
    proof {
        assert(body@ =~= seq![]);
    }
    encode_record(KIND_ENABLE_LEX, &body)
}

/// The bytes of a set-active record.
pub fn encode_set_active_record(frame_id: u64, active: bool) -> (r: Vec<u8>)
    ensures
        parse_set_active(set_active_body(r@)) == Some((frame_id, active)),
        r@ == record_bytes(KIND_SET_ACTIVE, set_active_body(r@)),
{
    let mut body: Vec<u8> = Vec::new();
    let lo = (frame_id & 0xffff_ffff) as u32;
    let hi = (frame_id >> 32u64) as u32;
    push_u32(&mut body, lo);
    push_u32(&mut body, hi);
    body.push(if active {
        1u8
    } else {
        0u8
    });
    proof {
        assert(body@.subrange(0, 4) =~= u32_le(lo));
        assert(body@.subrange(4, 8) =~= u32_le(hi));
        lemma_u64_halves(body@, frame_id);
    }
    let r = encode_record(KIND_SET_ACTIVE, &body);
    proof {
        assert(r@.subrange(5, 14) =~= body@);
    }
    r
}

/// The body of a set-active record, read back from its record bytes.
pub open spec fn set_active_body(r: Seq<u8>) -> Seq<u8> {
    r.subrange(5, 14)
}

proof fn lemma_u64_halves(s: Seq<u8>, x: u64)
    requires
        s.len() >= 8,
        s.subrange(0, 4) == u32_le((x & 0xffff_ffff) as u32),
        s.subrange(4, 8) == u32_le((x >> 32u64) as u32),
    ensures
        ((le_u32(s, 4) as u64) << 32u64) | (le_u32(s, 0) as u64) == x,
{
    crate::codec::lemma_read_u32(s, 0, (x & 0xffff_ffff) as u32);
    crate::codec::lemma_read_u32(s, 4, (x >> 32u64) as u32);
    let lo = (x & 0xffff_ffff) as u32;
    let hi = (x >> 32u64) as u32;
    assert(lo == (x & 0xffff_ffff) as u32 && hi == (x >> 32u64) as u32 ==> ((hi as u64) << 32u64)
        | (lo as u64) == x) by (bit_vector);
}

/// A commit time is read back from its record body.
pub proof fn lemma_ts_roundtrip(t: i64)
    ensures
        parse_ts(ts_bytes(t)) == Some(t),
{
    let x = t as u64;
    let s = ts_bytes(t);
    assert(s.subrange(0, 4) =~= u32_le((x & 0xffff_ffff) as u32));
    assert(s.subrange(4, 8) =~= u32_le((x >> 32u64) as u32));
    lemma_u64_halves(s, x);
    assert(x == t as u64 ==> (x as i64) == t) by (bit_vector);
}

proof fn lemma_replay_failed(rs: Seq<(u8, Seq<u8>)>)
    ensures
        !replay(rs).ok ==> replay(rs).staged.len() == 0,
        rs.len() > 0 && rs.last().0 == KIND_COMMIT ==> replay(rs).staged.len() == 0,
    decreases rs.len(),
{
    if rs.len() > 0 {
        lemma_replay_failed(rs.drop_last());
    }
}

proof fn lemma_commit_view(old_frames: Seq<Frame>, old_staged: Seq<Draft>, frames: Seq<Frame>, now: i64)
    requires
        frames.len() == old_frames.len() + old_staged.len(),
        frames.subrange(0, old_frames.len() as int) == old_frames,
        forall|k: int|
            0 <= k < old_staged.len() ==> committed_as(
                #[trigger] frames[old_frames.len() + k],
                old_staged[k],
                old_frames.len() + k + 1,
                next_timestamp(old_frames, now),
            ),
    ensures
        frames_view(frames) == commit_frames(frames_view(old_frames), drafts_view(old_staged), now),
{
    let n = old_frames.len() as int;
    let want = commit_frames(frames_view(old_frames), drafts_view(old_staged), now);
    if n > 0 {
        assert(frames_view(old_frames).last() == frame_view(old_frames.last()));
    }
    assert(next_time(frames_view(old_frames), now) == next_timestamp(old_frames, now));
    assert forall|j: int| 0 <= j < frames.len() implies #[trigger] frames_view(frames)[j] == want[j] by {
        if j < n {
            assert(frames[j] == old_frames[j]);
        } else {
            let k = j - n;
            assert(committed_as(frames[n + k], old_staged[k], n + k + 1, next_timestamp(old_frames, now)));
        }
    }
    assert(frames_view(frames) =~= want);
}

/// Where the first `n` records read from offset 4 end.
fn committed_end(bytes: &Vec<u8>, recs: &Vec<(u8, Vec<u8>)>, n: usize) -> (end: usize)
    requires
        4 <= bytes@.len(),
        record_view(recs@) == log_records(bytes@, 4),
        n <= recs@.len(),
    ensures
        4 <= end <= bytes@.len(),
        end == 4 + records_bytes(log_records(bytes@, 4).subrange(0, n as int)).len(),
        bytes@.subrange(4, end as int) == records_bytes(log_records(bytes@, 4).subrange(0, n as int)),
{
    let ghost all = log_records(bytes@, 4);
    let mut end: usize = 4;
    let mut e: usize = 0;
    proof {
        assert(all.subrange(0, 0) =~= Seq::<(u8, Seq<u8>)>::empty());
        assert(records_bytes(all.subrange(0, 0)) =~= Seq::<u8>::empty());
    }
    while e < n
        invariant
            n <= recs@.len(),
            record_view(recs@) == all,
            all == log_records(bytes@, 4),
            4 <= bytes@.len(),
            e <= n,
            end == 4 + records_bytes(all.subrange(0, e as int)).len(),
            end <= bytes@.len(),
            recs@.len() == all.len(),
        decreases n - e,
    {
        proof {
            assert(all.len() == recs@.len());
            lemma_log_prefix(bytes@, 4, e + 1);
            let x = all[e as int];
            assert(all.subrange(0, e + 1) =~= all.subrange(0, e as int).push(x));
            lemma_records_bytes_push(all.subrange(0, e as int), x);
            assert(record_bytes(x.0, x.1).len() == x.1.len() + 9);
            assert(record_view(recs@)[e as int] == (recs@[e as int].0, recs@[e as int].1@));
            assert(x.1.len() == recs@[e as int].1@.len());
        }
        let blen = recs[e].1.len();
        assert(bytes@.len() == bytes.len());
        end = end + 9 + blen;
        e = e + 1;
    }
    proof {
        lemma_log_prefix(bytes@, 4, n as int);
    }
    end
}

impl Store {
    /// Reopens a store from the bytes of its file: checks the header, reads
    /// the records up to the first that is cut short or fails its checksum,
    /// drops those after the last commit, and replays the rest in order.
    /// Replay stops at the first record whose body does not decode or whose
    /// operation is refused. The store rebuilt is the one that `replay`
    /// describes, and `Recovery::end` is where the committed records end, so
    /// that a writer cuts the file back to it before appending. Fails with
    /// `Corruption` where the header is wrong.
    pub fn open_log(bytes: &Vec<u8>) -> (r: Result<(Store, Recovery), StoreError>)
        ensures
            (bytes@.len() >= 4 && bytes@.subrange(0, 4) == magic()) <==> r is Ok,
            r is Err ==> r == Err::<(Store, Recovery), StoreError>(StoreError::Corruption),
            r matches Ok((s, rec)) ==> {
                &&& s@.well_formed()
                &&& s@.staged.len() == 0
                &&& frames_view(s@.frames) == replay(file_records(bytes@)).frames
                &&& (s@.lex is Some) == replay(file_records(bytes@)).lex
                &&& rec.committed == file_records(bytes@).len()
                &&& rec.dropped == log_records(bytes@, 4).len() - file_records(bytes@).len()
                &&& rec.applied <= rec.committed
                &&& (rec.applied == rec.committed) == replayable(bytes@)
                &&& 4 <= rec.end <= bytes@.len()
                &&& bytes@.subrange(4, rec.end as int) == records_bytes(file_records(bytes@))
            },
    {
        if bytes.len() < 4 || bytes[0] != 77 || bytes[1] != 86 || bytes[2] != 50 || bytes[3] != 76 {
            proof {
                if bytes@.len() >= 4 && bytes@.subrange(0, 4) == magic() {
                    assert(bytes@[0] == bytes@.subrange(0, 4)[0]);
                    assert(bytes@[1] == bytes@.subrange(0, 4)[1]);
                    assert(bytes@[2] == bytes@.subrange(0, 4)[2]);
                    assert(bytes@[3] == bytes@.subrange(0, 4)[3]);
                }
            }
            return Err(StoreError::Corruption);
        }
        proof {
            assert(bytes@.subrange(0, 4) =~= magic());
        }
        let (recs, _end) = decode_records(bytes, 4);
        let ghost all = log_records(bytes@, 4);
        let ghost committed = committed_prefix(all);
        proof {
            lemma_committed_ends(all);
        }
        let mut n: usize = recs.len();
        proof {
            assert(all.subrange(0, n as int) =~= all);
        }
        while n > 0 && recs[n - 1].0 != KIND_COMMIT
            invariant
                n <= recs@.len(),
                record_view(recs@) == all,
                committed_prefix(all) == committed_prefix(all.subrange(0, n as int)),
            decreases n,
        {
            proof {
                assert(all.subrange(0, n as int).drop_last() =~= all.subrange(0, n - 1));
                assert(all[n - 1].0 == recs@[n - 1].0);
            }
            n = n - 1;
        }
        proof {
            if n > 0 {
                assert(all[n - 1].0 == recs@[n - 1].0);
            }
            assert(committed_prefix(all.subrange(0, n as int)) == all.subrange(0, n as int));
            assert(n == 0 || all.subrange(0, n as int).last().0 == KIND_COMMIT);
        }
        let end = committed_end(bytes, &recs, n);
        let mut store = match Store::create(false) {
            Ok(s) => s,
            Err(e) => {
                return Err(e);
            },
        };
        let mut i: usize = 0;
        let mut applied: usize = 0;
        let mut ok = true;
        proof {
            assert(frames_view(store@.frames) =~= seq![]);
            assert(drafts_view(store@.staged) =~= seq![]);
            assert(committed.subrange(0, 0) =~= seq![]);
        }
        while i < n
            invariant
                n <= recs@.len(),
                record_view(recs@) == all,
                committed == all.subrange(0, n as int),
                n == 0 || committed.last().0 == KIND_COMMIT,
                i <= n,
                store@.well_formed(),
                ok == replay(committed.subrange(0, i as int)).ok,
                frames_view(store@.frames) == replay(committed.subrange(0, i as int)).frames,
                drafts_view(store@.staged) == replay(committed.subrange(0, i as int)).staged,
                (store@.lex is Some) == replay(committed.subrange(0, i as int)).lex,
                ok ==> applied == i,
                !ok ==> applied < i,
            decreases n - i,
        {
            let kind = recs[i].0;
            let body = &recs[i].1;
            let ghost pre = committed.subrange(0, i as int);
            let ghost st = replay(pre);
            let ghost old_frames = store@.frames;
            let ghost old_staged = store@.staged;
            proof {
                assert(committed.subrange(0, i + 1).drop_last() =~= pre);
                assert(committed.subrange(0, i + 1).last() == (kind, body@));
                assert(record_view(recs@)[i as int] == (kind, body@));
            }
            if ok {
                let mut step_ok = true;
                if kind == KIND_FRAME {
                    match decode_draft(body) {
                        Some(d) => {
                            let ghost dv = draft_view(d);
                            let opts = PutOptions { uri: d.uri, title: d.title, tags: d.tags };
                            match store.put(d.payload, opts) {
                                Ok(_) => {
                                    proof {
                                        assert(drafts_view(store@.staged) =~= st.staged.push(dv));
                                    }
                                },
                                Err(_) => {
                                    step_ok = false;
                                },
                            }
                        },
                        None => {
                            step_ok = false;
                        },
                    }
                } else if kind == KIND_COMMIT {
                    match decode_ts(body) {
                        Some(ts) => {
                            let _ids = store.commit(ts);
                            proof {
                                lemma_commit_view(old_frames, old_staged, store@.frames, ts);
                                assert(drafts_view(store@.staged) =~= seq![]);
                            }
                        },
                        None => {
                            step_ok = false;
                        },
                    }
                } else if kind == KIND_ENABLE_LEX {
                    store.enable_lex();
                } else if kind == KIND_SET_ACTIVE {
                    match decode_set_active(body) {
                        Some((id, active)) => {
                            match store.set_active(id, active) {
                                Ok(()) => {
                                    proof {
                                        let j = id - 1;
                                        assert(frames_view(store@.frames) =~= st.frames.update(
                                            j,
                                            view_with_active(st.frames[j], active, st.frames.len()),
                                        ));
                                    }
                                },
                                Err(_) => {
                                    step_ok = false;
                                },
                            }
                        },
                        None => {
                            step_ok = false;
                        },
                    }
                } else {
                    step_ok = false;
                }
                if step_ok {
                    applied = applied + 1;
                } else {
                    store.rollback();
                    ok = false;
                    proof {
                        assert(drafts_view(store@.staged) =~= seq![]);
                    }
                }
            }
            i = i + 1;
        }
        proof {
            assert(committed.subrange(0, i as int) =~= committed);
            lemma_committed_ends(all);
            lemma_replay_failed(committed);
        }
        let rec = Recovery { applied, committed: n, dropped: recs.len() - n, end };
        Ok((store, rec))
    }

    /// Reopens a store in order to write to it: as `open_log`, but refused
    /// with `Corruption` where replay stopped before the end of the committed
    /// records, since a transaction appended after a refused record would
    /// never be replayed. Returns the store and the length to which the file
    /// is cut back before anything is appended.
    pub fn open_for_write(bytes: &Vec<u8>) -> (r: Result<(Store, usize), StoreError>)
        ensures
            (bytes@.len() >= 4 && bytes@.subrange(0, 4) == magic() && replayable(bytes@))
                <==> r is Ok,
            r is Err ==> r == Err::<(Store, usize), StoreError>(StoreError::Corruption),
            r matches Ok((s, end)) ==> {
                &&& s@.well_formed()
                &&& s@.staged.len() == 0
                &&& frames_view(s@.frames) == replay(file_records(bytes@)).frames
                &&& (s@.lex is Some) == replay(file_records(bytes@)).lex
                &&& 4 <= end <= bytes@.len()
                &&& bytes@.subrange(4, end as int) == records_bytes(file_records(bytes@))
            },
    {
        match Store::open_log(bytes) {
            Ok((s, rec)) => {
                if rec.applied != rec.committed {
                    Err(StoreError::Corruption)
                } else {
                    Ok((s, rec.end))
                }
            },
            Err(e) => Err(e),
        }
    }

    /// Stores one frame as a transaction of its own: stages it, commits it
    /// at `now`, and returns its id with the bytes to append to the store
    /// file (its frame record, then the commit record). Refused, with
    /// nothing changed, as `put` refuses, and with `InvalidInput` where a
    /// length does not fit the file format.
    pub fn put_committed(&mut self, payload: Vec<u8>, opts: PutOptions, now: i64) -> (r: Result<
        (u64, Vec<u8>),
        StoreError,
    >)
        requires
            old(self)@.well_formed(),
            old(self)@.staged.len() == 0,
        ensures
            final(self)@.well_formed(),
            final(self)@.staged.len() == 0,
            final(self)@.lex is Some <==> old(self)@.lex is Some,
            is_blank(payload@) || bad_uri(opts.uri) ==> r == Err::<(u64, Vec<u8>), StoreError>(
                StoreError::InvalidInput,
            ),
            r is Err ==> final(self)@.frames == old(self)@.frames,
            ({
                let d = DraftView {
                    payload: payload@,
                    uri: opt_view(opts.uri),
                    title: opt_view(opts.title),
                    tags: terms_view(opts.tags@),
                };
                !is_blank(payload@) && !bad_uri(opts.uri) && draft_fits(d) && draft_bytes(d).len()
                    < 4294967296 && old(self)@.frames.len() + 2 < u64::MAX ==> r is Ok
            }),
            r matches Ok((id, bytes)) ==> {
                let d = DraftView {
                    payload: payload@,
                    uri: opt_view(opts.uri),
                    title: opt_view(opts.title),
                    tags: terms_view(opts.tags@),
                };
                &&& id == old(self)@.frames.len() + 1
                &&& final(self)@.frames.len() == old(self)@.frames.len() + 1
                &&& final(self)@.frames.subrange(0, old(self)@.frames.len() as int)
                    == old(self)@.frames
                &&& committed_as(
                    final(self)@.frames[old(self)@.frames.len() as int],
                    Draft { payload, uri: opts.uri, title: opts.title, tags: opts.tags },
                    id as int,
                    next_timestamp(old(self)@.frames, now),
                )
                &&& frames_view(final(self)@.frames) == commit_frames(
                    frames_view(old(self)@.frames),
                    seq![d],
                    now,
                )
                &&& draft_fits(d)
                &&& draft_bytes(d).len() < 4294967296
                &&& bytes@ == record_bytes(KIND_FRAME, draft_bytes(d)) + record_bytes(
                    KIND_COMMIT,
                    ts_bytes(now),
                )
            },
    {
        let mut bytes = match encode_frame_record(&payload, &opts) {
            Some(b) => b,
            None => {
                return Err(StoreError::InvalidInput);
            },
        };
        let id = match self.put(payload, opts) {
            Ok(id) => id,
            Err(e) => {
                return Err(e);
            },
        };
        let ghost before_frames = self@.frames;
        let ghost before_staged = self@.staged;
        let _ids = self.commit(now);
        proof {
            lemma_commit_view(before_frames, before_staged, self@.frames, now);
            assert(drafts_view(before_staged) =~= seq![
                DraftView {
                    payload: payload@,
                    uri: opt_view(opts.uri),
                    title: opt_view(opts.title),
                    tags: terms_view(opts.tags@),
                },
            ]);
        }
        let c = encode_commit_record(now);
        push_all(&mut bytes, &c);
        Ok((id, bytes))
    }

    /// Turns the lexical index on and returns the bytes to append to the
    /// store file: its record where the index was off, nothing where it was
    /// on already.
    pub fn enable_lex_logged(&mut self) -> (r: Vec<u8>)
        requires
            old(self)@.well_formed(),
        ensures
            final(self)@.well_formed(),
            final(self)@.frames == old(self)@.frames,
            final(self)@.staged == old(self)@.staged,
            final(self)@.lex is Some,
            old(self)@.lex is Some ==> final(self)@.lex == old(self)@.lex && r@.len() == 0,
            old(self)@.lex is None ==> r@ == record_bytes(KIND_ENABLE_LEX, seq![]),
    {
        let was_on = self.lex_index().is_some();
        self.enable_lex();
        if was_on {
            Vec::new()
        } else {
            encode_enable_lex_record()
        }
    }
}

} // verus!
