use vstd::prelude::*;

use crate::text::{token_view, tokenize, tokens};

verus! {

/// The errors of the store.
#[derive(Debug, Clone, Copy, PartialEq, Eq, Structural)]
pub enum StoreError {
    /// A store already exists where one was to be created.
    AlreadyExists,
    /// The store, or the frame asked for, does not exist.
    NotFound,
    /// Stored bytes fail their length or checksum validation.
    Corruption,
    /// The input is rejected before anything is changed.
    InvalidInput,
    /// A search was asked of a store without a lexical index.
    IndexUnavailable,
    /// The underlying storage failed during a write.
    IoFailure,
    /// No frame id is left to assign.
    CapacityExceeded,
}

impl StoreError {
    /// A short description of the error.
    pub fn message(&self) -> &'static str {
        match self {
            StoreError::AlreadyExists => "the store already exists",
            StoreError::NotFound => "not found",
            StoreError::Corruption => "the stored bytes are corrupt",
            StoreError::InvalidInput => "invalid input: empty content, malformed uri or zero limit",
            StoreError::IndexUnavailable => "the lexical index is not enabled",
            StoreError::IoFailure => "the storage failed during a write",
            StoreError::CapacityExceeded => "no frame id is left",
        }
    }
}

/// The optional attributes of a frame to be stored.
#[derive(Debug)]
pub struct PutOptions {
    pub uri: Option<Vec<u8>>,
    pub title: Option<Vec<u8>>,
    pub tags: Vec<Vec<u8>>,
}

/// A frame that has been staged and not committed yet.
#[derive(Debug)]
pub struct Draft {
    pub payload: Vec<u8>,
    pub uri: Option<Vec<u8>>,
    pub title: Option<Vec<u8>>,
    pub tags: Vec<Vec<u8>>,
}

/// One committed frame.
#[derive(Debug)]
pub struct Frame {
    pub frame_id: u64,
    pub uri: Option<Vec<u8>>,
    pub title: Option<Vec<u8>>,
    pub tags: Vec<Vec<u8>>,
    pub timestamp: i64,
    pub payload: Vec<u8>,
    pub active: bool,
    /// For an inactive frame, the number of committed frames when it was
    /// deactivated: reads as of an earlier point still see it.
    pub deactivated_at: Option<u64>,
}

/// What the lexical index holds for one frame: the tokens of its payload and
/// of its title.
#[derive(Debug)]
pub struct IndexEntry {
    pub payload_tokens: Vec<(Vec<u8>, usize)>,
    pub title_tokens: Vec<(Vec<u8>, usize)>,
}

/// The statistics of a store.
#[derive(Debug, Clone, Copy, PartialEq, Eq, Structural)]
pub struct Stats {
    pub frame_count: u64,
    pub active_frame_count: u64,
    pub size_bytes: u64,
    pub has_lex_index: bool,
    pub has_vec_index: bool,
}

/// The store: the frame log, the staged drafts of the open transaction and,
/// once enabled, the lexical index.
pub struct Store {
    frames: Vec<Frame>,
    staged: Vec<Draft>,
    lex: Option<Vec<IndexEntry>>,
}

/// The abstract state of a store.
pub struct StoreView {
    pub frames: Seq<Frame>,
    pub staged: Seq<Draft>,
    pub lex: Option<Seq<IndexEntry>>,
}

impl View for Store {
    type V = StoreView;

    closed spec fn view(&self) -> StoreView {
        StoreView {
            frames: self.frames@,
            staged: self.staged@,
            lex: match self.lex {
                Some(d) => Some(d@),
                None => None,
            },
        }
    }
}

/// The bytes of an optional field, empty where it is absent.
pub open spec fn opt_bytes(o: Option<Vec<u8>>) -> Seq<u8> {
    match o {
        Some(v) => v@,
        None => seq![],
    }
}

/// An index entry reflects a frame: it holds exactly the tokens of the
/// frame's payload and title.
pub open spec fn entry_reflects(e: IndexEntry, f: Frame) -> bool {
    &&& token_view(e.payload_tokens@) == tokens(f.payload@)
    &&& token_view(e.title_tokens@) == tokens(opt_bytes(f.title))
}

/// An index reflects exactly the committed frames, one entry per frame.
pub open spec fn index_reflects(d: Seq<IndexEntry>, frames: Seq<Frame>) -> bool {
    &&& d.len() == frames.len()
    &&& forall|i: int| 0 <= i < d.len() ==> entry_reflects(#[trigger] d[i], frames[i])
}

/// Frame ids are 1, 2, 3, ... in log order.
pub open spec fn ids_dense(frames: Seq<Frame>) -> bool {
    forall|i: int| 0 <= i < frames.len() ==> (#[trigger] frames[i]).frame_id == i + 1
}

/// Timestamps do not decrease along the log.
pub open spec fn timestamps_sorted(frames: Seq<Frame>) -> bool {
    forall|i: int, j: int|
        0 <= i <= j < frames.len() ==> (#[trigger] frames[i]).timestamp <= (#[trigger] frames[j]).timestamp
}

/// The timestamp that the next committed frame gets when committed at `now`:
/// never earlier than the last frame's.
pub open spec fn next_timestamp(frames: Seq<Frame>, now: i64) -> i64 {
    if frames.len() > 0 && frames.last().timestamp > now {
        frames.last().timestamp
    } else {
        now
    }
}

/// The frame that a draft becomes when committed with the given id and time.
pub open spec fn committed_as(f: Frame, d: Draft, id: int, ts: i64) -> bool {
    &&& f.frame_id == id
    &&& f.timestamp == ts
    &&& f.active
    &&& f.deactivated_at is None
    &&& f.payload == d.payload
    &&& f.uri == d.uri
    &&& f.title == d.title
    &&& f.tags == d.tags
}

/// A frame after `set_active(active)` while the log holds `n` frames: a
/// deactivation records `n`; a frame already inactive keeps its record;
/// reactivation clears it.
pub open spec fn with_active(f: Frame, active: bool, n: nat) -> Frame {
    if active {
        Frame { active: true, deactivated_at: None, ..f }
    } else if f.active {
        Frame { active: false, deactivated_at: Some(n as u64), ..f }
    } else {
        f
    }
}

/// An ASCII whitespace byte.
pub open spec fn is_space(c: u8) -> bool {
    c == 32 || c == 9 || c == 10 || c == 11 || c == 12 || c == 13
}

/// The length of the UTF-8 encoding of a Unicode White_Space character that
/// starts at `i` (U+0009..U+000D, U+0020, U+0085, U+00A0, U+1680,
/// U+2000..U+200A, U+2028, U+2029, U+202F, U+205F, U+3000), or 0 where none
/// does.
pub open spec fn space_len(s: Seq<u8>, i: int) -> int {
    if 0 <= i < s.len() && is_space(s[i]) {
        1
    } else if 0 <= i && i + 1 < s.len() && s[i] == 0xc2 && (s[i + 1] == 0x85 || s[i + 1] == 0xa0) {
        2
    } else if 0 <= i && i + 2 < s.len() && ((s[i] == 0xe1 && s[i + 1] == 0x9a && s[i + 2] == 0x80)
        || (s[i] == 0xe2 && s[i + 1] == 0x80 && (s[i + 2] <= 0x8a && s[i + 2] >= 0x80)) || (s[i]
        == 0xe2 && s[i + 1] == 0x80 && (s[i + 2] == 0xa8 || s[i + 2] == 0xa9 || s[i + 2] == 0xaf))
        || (s[i] == 0xe2 && s[i + 1] == 0x81 && s[i + 2] == 0x9f) || (s[i] == 0xe3 && s[i + 1]
        == 0x80 && s[i + 2] == 0x80)) {
        3
    } else {
        0
    }
}

/// From `i` on, `s` is white space characters only.
pub open spec fn blank_from(s: Seq<u8>, i: int) -> bool
    decreases s.len() - i,
{
    if i < 0 || i >= s.len() {
        true
    } else if space_len(s, i) == 0 {
        false
    } else {
        blank_from(s, i + space_len(s, i))
    }
}

/// A payload that is empty or the UTF-8 encoding of white space only, as
/// `str::trim` sees it.
pub open spec fn is_blank(s: Seq<u8>) -> bool {
    blank_from(s, 0)
}

/// A well-formed uri: not empty, and no whitespace or control bytes.
pub open spec fn valid_uri(u: Seq<u8>) -> bool {
    &&& u.len() > 0
    &&& forall|i: int| 0 <= i < u.len() ==> 32 < #[trigger] u[i] && u[i] != 127
}

/// An optional uri that is present and malformed.
pub open spec fn bad_uri(u: Option<Vec<u8>>) -> bool {
    match u {
        Some(v) => !valid_uri(v@),
        None => false,
    }
}

/// The number of active frames.
pub open spec fn active_count(frames: Seq<Frame>) -> nat
    decreases frames.len(),
{
    if frames.len() == 0 {
        0
    } else {
        active_count(frames.drop_last()) + if frames.last().active {
            1nat
        } else {
            0nat
        }
    }
}

/// The total size of the payloads.
pub open spec fn payload_bytes(frames: Seq<Frame>) -> nat
    decreases frames.len(),
{
    if frames.len() == 0 {
        0
    } else {
        payload_bytes(frames.drop_last()) + frames.last().payload@.len()
    }
}

impl StoreView {
    /// The invariant of a store.
    pub open spec fn well_formed(&self) -> bool {
        &&& ids_dense(self.frames)
        &&& timestamps_sorted(self.frames)
        &&& self.frames.len() + self.staged.len() < u64::MAX
        &&& match self.lex {
            Some(d) => index_reflects(d, self.frames),
            None => true,
        }
    }
}

fn space_len_at(s: &Vec<u8>, i: usize) -> (r: usize)
    requires
        i < s@.len(),
    ensures
        r as int == space_len(s@, i as int),
{
    let n = s.len();
    let c = s[i];
    if c == 32 || c == 9 || c == 10 || c == 11 || c == 12 || c == 13 {
        return 1;
    }
    if i + 1 < n && c == 0xc2 && (s[i + 1] == 0x85 || s[i + 1] == 0xa0) {
        return 2;
    }
    if n - i > 2 {
        let d = s[i + 1];
        let e = s[i + 2];
        if (c == 0xe1 && d == 0x9a && e == 0x80) || (c == 0xe2 && d == 0x80 && (e <= 0x8a && e
            >= 0x80)) || (c == 0xe2 && d == 0x80 && (e == 0xa8 || e == 0xa9 || e == 0xaf)) || (c
            == 0xe2 && d == 0x81 && e == 0x9f) || (c == 0xe3 && d == 0x80 && e == 0x80) {
            return 3;
        }
    }
    0
}

fn blank(s: &Vec<u8>) -> (r: bool)
    ensures
        r == is_blank(s@),
{
    let mut i: usize = 0;
    while i < s.len()
        invariant
            i <= s@.len(),
            is_blank(s@) == blank_from(s@, i as int),
        decreases s@.len() - i,
    {
        let k = space_len_at(s, i);
        if k == 0 {
            return false;
        }
        i = i + k;
    }
    true
}

/// Checks a uri: not empty, and no whitespace or control bytes.
pub fn check_uri(u: &Vec<u8>) -> (r: bool)
    ensures
        r == valid_uri(u@),
{
    if u.len() == 0 {
        return false;
    }
    let mut i: usize = 0;
    while i < u.len()
        invariant
            i <= u@.len(),
            forall|k: int| 0 <= k < i ==> 32 < #[trigger] u@[k] && u@[k] != 127,
        decreases u@.len() - i,
    {
        if u[i] <= 32 || u[i] == 127 {
            return false;
        }
        i = i + 1;
    }
    true
}

/// Builds the index entry of a frame.
pub fn index_frame(f: &Frame) -> (r: IndexEntry)
    ensures
        entry_reflects(r, *f),
{
    let title_tokens = match &f.title {
        Some(t) => tokenize(t.as_slice()),
        None => {
            let empty: Vec<u8> = Vec::new();
            proof {
                assert(empty@ =~= seq![]);
            }
            tokenize(empty.as_slice())
        },
    };
    IndexEntry { payload_tokens: tokenize(f.payload.as_slice()), title_tokens }
}

impl Store {
    /// Decides the creation of a store: a new, empty store without indexes,
    /// unless one already exists where it is to be created.
    pub fn create(exists: bool) -> (r: Result<Store, StoreError>)
        ensures
            exists ==> r == Err::<Store, StoreError>(StoreError::AlreadyExists),
            !exists ==> (r matches Ok(s) && s@.frames.len() == 0 && s@.staged.len() == 0
                && s@.lex is None && s@.well_formed()),
    {
        if exists {
            Err(StoreError::AlreadyExists)
        } else {
            Ok(Store { frames: Vec::new(), staged: Vec::new(), lex: None })
        }
    }

    /// The committed frames, in log order.
    pub fn frames(&self) -> (r: &Vec<Frame>)
        ensures
            r@ == self@.frames,
    {
        &self.frames
    }

    /// The committed frame with the given id; `NotFound` where there is none.
    pub fn get_frame(&self, frame_id: u64) -> (r: Result<&Frame, StoreError>)
        requires
            self@.well_formed(),
        ensures
            (1 <= frame_id <= self@.frames.len()) <==> r is Ok,
            r is Err ==> r == Err::<&Frame, StoreError>(StoreError::NotFound),
            r matches Ok(f) ==> *f == self@.frames[frame_id - 1] && f.frame_id == frame_id,
    {
        if frame_id == 0 || frame_id > self.frames.len() as u64 {
            return Err(StoreError::NotFound);
        }
        Ok(&self.frames[(frame_id - 1) as usize])
    }

    /// The lexical index, where it is enabled.
    pub fn lex_index(&self) -> (r: Option<&Vec<IndexEntry>>)
        ensures
            match r {
                Some(d) => self@.lex == Some(d@),
                None => self@.lex is None,
            },
    {
        match &self.lex {
            Some(d) => Some(d),
            None => None,
        }
    }

    /// The number of staged drafts.
    pub fn pending_count(&self) -> (r: usize)
        ensures
            r == self@.staged.len(),
    {
        self.staged.len()
    }

    /// Stages one draft frame and returns the id that it gets when the open
    /// transaction commits. A blank payload or a malformed uri is refused.
    pub fn put(&mut self, payload: Vec<u8>, opts: PutOptions) -> (r: Result<u64, StoreError>)
        requires
            old(self)@.well_formed(),
        ensures
            final(self)@.well_formed(),
            final(self)@.frames == old(self)@.frames,
            final(self)@.lex == old(self)@.lex,
            is_blank(payload@) ==> r == Err::<u64, StoreError>(StoreError::InvalidInput),
            !is_blank(payload@) && bad_uri(opts.uri) ==> r == Err::<
                u64,
                StoreError,
            >(StoreError::InvalidInput),
            !is_blank(payload@) && !bad_uri(opts.uri)
                && old(self)@.frames.len() + old(self)@.staged.len() + 2 >= u64::MAX ==> r == Err::<
                u64,
                StoreError,
            >(StoreError::CapacityExceeded),
            r is Err ==> final(self)@.staged == old(self)@.staged,
            r matches Ok(id) ==> {
                &&& id == old(self)@.frames.len() + old(self)@.staged.len() + 1
                &&& final(self)@.staged == old(self)@.staged.push(
                    Draft { payload, uri: opts.uri, title: opts.title, tags: opts.tags },
                )
            },
            (!is_blank(payload@) && !bad_uri(opts.uri)
                && old(self)@.frames.len() + old(self)@.staged.len() + 2 < u64::MAX) ==> r is Ok,
    {
        if blank(&payload) {
            return Err(StoreError::InvalidInput);
        }
        if let Some(u) = &opts.uri {
            if !check_uri(u) {
                return Err(StoreError::InvalidInput);
            }
        }
        let n = self.frames.len() as u64;
        let k = self.staged.len() as u64;
        if n + k >= u64::MAX - 2 {
            return Err(StoreError::CapacityExceeded);
        }
        let id = n + k + 1;
        self.staged.push(Draft { payload, uri: opts.uri, title: opts.title, tags: opts.tags });
        Ok(id)
    }

    /// Discards the staged drafts; the frame log is not touched.
    pub fn rollback(&mut self)
        requires
            old(self)@.well_formed(),
        ensures
            final(self)@.well_formed(),
            final(self)@.frames == old(self)@.frames,
            final(self)@.lex == old(self)@.lex,
            final(self)@.staged.len() == 0,
    {
        self.staged = Vec::new();
    }

    /// Turns the lexical index on, built from the whole frame log; does
    /// nothing where it is on already.
    pub fn enable_lex(&mut self)
        requires
            old(self)@.well_formed(),
        ensures
            final(self)@.well_formed(),
            final(self)@.frames == old(self)@.frames,
            final(self)@.staged == old(self)@.staged,
            final(self)@.lex is Some,
            old(self)@.lex is Some ==> final(self)@.lex == old(self)@.lex,
    {
        if self.lex.is_some() {
            return;
        }
        let mut d: Vec<IndexEntry> = Vec::new();
        let mut i: usize = 0;
        while i < self.frames.len()
            invariant
                i <= self.frames@.len(),
                d@.len() == i,
                forall|j: int| 0 <= j < i ==> entry_reflects(#[trigger] d@[j], self.frames@[j]),
            decreases self.frames@.len() - i,
        {
            let e = index_frame(&self.frames[i]);
            d.push(e);
            i = i + 1;
        }
        self.lex = Some(d);
    }

    /// Commits every staged draft, in staging order, as one unit: they get
    /// the ids that follow the last committed one and the timestamp
    /// `next_timestamp(frames, now)`, and the index takes them in. Returns the
    /// ids assigned.
    pub fn commit(&mut self, now: i64) -> (r: Vec<u64>)
        requires
            old(self)@.well_formed(),
        ensures
            final(self)@.well_formed(),
            final(self)@.staged.len() == 0,
            final(self)@.frames.len() == old(self)@.frames.len() + old(self)@.staged.len(),
            final(self)@.frames.subrange(0, old(self)@.frames.len() as int) == old(self)@.frames,
            forall|k: int|
                0 <= k < old(self)@.staged.len() ==> committed_as(
                    #[trigger] final(self)@.frames[old(self)@.frames.len() + k],
                    old(self)@.staged[k],
                    old(self)@.frames.len() + k + 1,
                    next_timestamp(old(self)@.frames, now),
                ),
            r@.len() == old(self)@.staged.len(),
            forall|k: int| 0 <= k < r@.len() ==> #[trigger] r@[k] == old(self)@.frames.len() + k + 1,
            final(self)@.lex is Some <==> old(self)@.lex is Some,
    {
        let ghost old_frames = self.frames@;
        let ghost old_staged = self.staged@;
        let ts: i64 = if self.frames.len() > 0 && self.frames[self.frames.len() - 1].timestamp
            > now {
            self.frames[self.frames.len() - 1].timestamp
        } else {
            now
        };
        let mut drafts: Vec<Draft> = Vec::new();
        std::mem::swap(&mut drafts, &mut self.staged);
        let mut ids: Vec<u64> = Vec::new();
        let n0 = self.frames.len();
        let mut lex = self.lex.take();
        let total = drafts.len();
        proof {
            assert forall|j: int| 0 <= j < self.frames@.len() implies #[trigger] self.frames@[j].timestamp <= ts by {
                let m = self.frames@.len() - 1;
                assert(self.frames@[j].timestamp <= self.frames@[m].timestamp);
            }
            assert(self.frames@.subrange(0, n0 as int) =~= old_frames);
        }
        let mut k: usize = 0;
        while k < total
            invariant
                k <= total,
                total == old_staged.len(),
                drafts@ == old_staged.subrange(k as int, total as int),
                n0 == old_frames.len(),
                old_frames.len() + old_staged.len() < u64::MAX,
                ts == next_timestamp(old_frames, now),
                self.staged@.len() == 0,
                self.frames@.len() == n0 + k,
                self.frames@.subrange(0, n0 as int) == old_frames,
                ids_dense(self.frames@),
                timestamps_sorted(self.frames@),
                forall|j: int| 0 <= j < self.frames@.len() ==> #[trigger] self.frames@[j].timestamp <= ts,
                forall|j: int|
                    0 <= j < k ==> committed_as(
                        #[trigger] self.frames@[n0 + j],
                        old_staged[j],
                        n0 + j + 1,
                        ts,
                    ),
                ids@.len() == k,
                forall|j: int| 0 <= j < k ==> #[trigger] ids@[j] == n0 + j + 1,
                lex is Some <==> old(self).lex is Some,
                match lex {
                    Some(d) => index_reflects(d@, self.frames@),
                    None => true,
                },
            decreases total - k,
        {
            let d = drafts.remove(0);
            proof {
                assert(d == old_staged[k as int]);
                assert(drafts@ =~= old_staged.subrange(k + 1, total as int));
            }
            let id = n0 as u64 + k as u64 + 1;
            let f = Frame {
                frame_id: id,
                uri: d.uri,
                title: d.title,
                tags: d.tags,
                timestamp: ts,
                payload: d.payload,
                active: true,
                deactivated_at: None,
            };
            match &mut lex {
                Some(idx) => {
                    let e = index_frame(&f);
                    idx.push(e);
                },
                None => {},
            }
            self.frames.push(f);
            ids.push(id);
            k = k + 1;
        }
        self.lex = lex;
        ids
    }

    /// Marks a committed frame active or inactive; nothing else changes.
    pub fn set_active(&mut self, frame_id: u64, active: bool) -> (r: Result<(), StoreError>)
        requires
            old(self)@.well_formed(),
        ensures
            final(self)@.well_formed(),
            final(self)@.staged == old(self)@.staged,
            final(self)@.lex == old(self)@.lex,
            (1 <= frame_id <= old(self)@.frames.len()) <==> r is Ok,
            r is Err ==> r == Err::<(), StoreError>(StoreError::NotFound) && final(self)@.frames
                == old(self)@.frames,
            r is Ok ==> final(self)@.frames == old(self)@.frames.update(
                frame_id - 1,
                with_active(old(self)@.frames[frame_id - 1], active, old(self)@.frames.len()),
            ),
    {
        if frame_id == 0 || frame_id > self.frames.len() as u64 {
            return Err(StoreError::NotFound);
        }
        let i: usize = (frame_id - 1) as usize;
        let f = self.frames.remove(i);
        let n = self.frames.len() as u64 + 1;
        let g = if active {
            Frame { active: true, deactivated_at: None, ..f }
        } else if f.active {
            Frame { active: false, deactivated_at: Some(n), ..f }
        } else {
            f
        };
        self.frames.insert(i, g);
        proof {
            assert(self.frames@ =~= old(self).frames@.update(i as int, g));
            let d = self@;
            assert forall|a: int, b: int|
                0 <= a <= b < d.frames.len() implies (#[trigger] d.frames[a]).timestamp <= (
                #[trigger] d.frames[b]).timestamp by {
                assert(old(self)@.frames[a].timestamp <= old(self)@.frames[b].timestamp);
            }
            match d.lex {
                Some(x) => {
                    assert forall|j: int| 0 <= j < x.len() implies entry_reflects(
                        #[trigger] x[j],
                        d.frames[j],
                    ) by {
                        assert(entry_reflects(x[j], old(self)@.frames[j]));
                    }
                },
                None => {},
            }
        }
        Ok(())
    }

    /// Counts and sizes of the store: all committed frames, the active ones,
    /// the payload bytes held (saturating), and which indexes are present.
    /// There is no vector index.
    pub fn stats(&self) -> (r: Stats)
        requires
            self@.well_formed(),
        ensures
            r.frame_count == self@.frames.len(),
            r.active_frame_count == active_count(self@.frames),
            r.size_bytes == crate::text::sat(payload_bytes(self@.frames)),
            r.has_lex_index == self@.lex is Some,
            !r.has_vec_index,
    {
        let mut active: u64 = 0;
        let mut size: u64 = 0;
        let mut i: usize = 0;
        while i < self.frames.len()
            invariant
                i <= self.frames@.len(),
                self.frames@.len() < u64::MAX,
                active as nat == active_count(self.frames@.subrange(0, i as int)),
                active <= i,
                size == crate::text::sat(payload_bytes(self.frames@.subrange(0, i as int))),
            decreases self.frames@.len() - i,
        {
            proof {
                assert(self.frames@.subrange(0, i + 1).drop_last() =~= self.frames@.subrange(
                    0,
                    i as int,
                ));
            }
            if self.frames[i].active {
                active = active + 1;
            }
            size = size.saturating_add(self.frames[i].payload.len() as u64);
            i = i + 1;
        }
        proof {
            assert(self.frames@.subrange(0, i as int) =~= self.frames@);
        }
        Stats {
            frame_count: self.frames.len() as u64,
            active_frame_count: active,
            size_bytes: size,
            has_lex_index: self.lex.is_some(),
            has_vec_index: false,
        }
    }
}

} // verus!
