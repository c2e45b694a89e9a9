use vstd::prelude::*;

use crate::rank::{
    distinct_ids, lemma_ranked, lemma_resume_len, page, rank_keys, ranked, resume,
    take_page, Cursor, Key,
};
use crate::store::{entry_reflects, opt_bytes, Frame, IndexEntry, Store, StoreError, StoreView};
use crate::text::{
    count_term, first_hit, first_match, same_bytes, sat, term_count, terms_view, texts,
    token_view, tokenize, tokens,
};

verus! {

/// A search over the lexical index.
#[derive(Debug)]
pub struct SearchRequest {
    /// The query text, tokenized as frames are.
    pub query: Vec<u8>,
    /// The most hits to return; at least 1.
    pub top_k: usize,
    /// The most characters of a hit's snippet (it holds at most this many
    /// bytes and never cuts a UTF-8 character).
    pub snippet_chars: usize,
    /// Only frames with exactly this uri.
    pub uri: Option<Vec<u8>>,
    /// Only frames whose uri starts with this prefix.
    pub scope: Option<Vec<u8>>,
    /// Resume after this hit.
    pub cursor: Option<Cursor>,
    /// Only frames with an id at most this.
    pub as_of_frame: Option<u64>,
    /// Only frames with a timestamp at most this.
    pub as_of_ts: Option<i64>,
    /// Score every frame without a pre-filter; the hits are the same either way.
    pub no_sketch: bool,
}

/// One search hit.
#[derive(Debug)]
pub struct SearchHit {
    pub frame_id: u64,
    pub score: u64,
    pub uri: Option<Vec<u8>>,
    pub title: Option<Vec<u8>>,
    pub snippet: Vec<u8>,
}

/// The answer to a search.
#[derive(Debug)]
pub struct SearchResponse {
    /// The number of all matching frames, before paging.
    pub total_hits: usize,
    pub hits: Vec<SearchHit>,
    /// Where the next page starts, when there is one.
    pub next_cursor: Option<Cursor>,
}

/// A chronological window over the frame log.
#[derive(Debug, Clone, Copy)]
pub struct TimelineQuery {
    /// The most entries to return; at least 1.
    pub limit: u64,
    /// Only frames at or after this time.
    pub since: Option<i64>,
    /// Only frames at or before this time.
    pub until: Option<i64>,
    /// Newest first.
    pub reverse: bool,
}

/// One timeline entry.
#[derive(Debug)]
pub struct TimelineEntry {
    pub frame_id: u64,
    pub timestamp: i64,
    pub uri: Option<Vec<u8>>,
    pub preview: Vec<u8>,
}

/// The most payload bytes of a timeline preview.
pub const PREVIEW_BYTES: usize = 120;

/// The view of an optional byte string.
pub open spec fn opt_view(o: Option<Vec<u8>>) -> Option<Seq<u8>> {
    match o {
        Some(v) => Some(v@),
        None => None,
    }
}

/// The terms of a query.
pub open spec fn query_terms(q: Seq<u8>) -> Seq<Seq<u8>> {
    texts(tokens(q))
}

/// How often a term occurs in a frame's payload and title.
pub open spec fn frame_tf(f: Frame, t: Seq<u8>) -> nat {
    term_count(tokens(f.payload@), t) + term_count(tokens(opt_bytes(f.title)), t)
}

/// The number of frames that hold the term.
pub open spec fn doc_freq(frames: Seq<Frame>, t: Seq<u8>) -> nat
    decreases frames.len(),
{
    if frames.len() == 0 {
        0
    } else {
        doc_freq(frames.drop_last(), t) + if frame_tf(frames.last(), t) > 0 {
            1nat
        } else {
            0nat
        }
    }
}

/// The weight of a term among the frames: (N + 1) / (df + 1), so that a
/// rarer term weighs more.
pub open spec fn term_weight(frames: Seq<Frame>, t: Seq<u8>) -> nat {
    ((frames.len() + 1) / (doc_freq(frames, t) + 1)) as nat
}

/// The relevance of a frame for the query terms: the sum over the query
/// terms of their frequency in the frame times their weight among `all`.
pub open spec fn weighted_score(all: Seq<Frame>, f: Frame, q: Seq<Seq<u8>>) -> nat
    decreases q.len(),
{
    if q.len() == 0 {
        0
    } else {
        weighted_score(all, f, q.drop_last()) + frame_tf(f, q.last()) * term_weight(all, q.last())
    }
}

/// The score of a frame, saturating at `u64::MAX`.
pub open spec fn frame_score(all: Seq<Frame>, f: Frame, q: Seq<Seq<u8>>) -> u64 {
    sat(weighted_score(all, f, q))
}

/// `p` is a prefix of `s`, byte for byte.
pub open spec fn starts_with(s: Seq<u8>, p: Seq<u8>) -> bool {
    p.len() <= s.len() && forall|i: int| 0 <= i < p.len() ==> s[i] == p[i]
}

/// A frame is visible to a read: active, or, for a read as of frame `n`,
/// deactivated only once `n` or more frames were committed.
pub open spec fn visible_as_of(f: Frame, as_of_frame: Option<u64>) -> bool {
    f.active || match (as_of_frame, f.deactivated_at) {
        (Some(n), Some(l)) => n <= l,
        _ => false,
    }
}

/// A frame passes the filters of a request: visible as of its bound, the
/// exact uri, the scope prefix, and the as-of bounds.
pub open spec fn passes_filters(f: Frame, req: SearchRequest) -> bool {
    &&& visible_as_of(f, req.as_of_frame)
    &&& match req.uri {
        Some(u) => opt_view(f.uri) == Some(u@),
        None => true,
    }
    &&& match req.scope {
        Some(p) => f.uri is Some && starts_with(opt_bytes(f.uri), p@),
        None => true,
    }
    &&& match req.as_of_frame {
        Some(n) => f.frame_id <= n,
        None => true,
    }
    &&& match req.as_of_ts {
        Some(t) => f.timestamp <= t,
        None => true,
    }
}

/// A frame of the log `all` is a hit of a request: it passes the filters
/// and scores above 0.
pub open spec fn is_hit(all: Seq<Frame>, f: Frame, req: SearchRequest) -> bool {
    passes_filters(f, req) && frame_score(all, f, query_terms(req.query@)) > 0
}

/// The keys of the hits among `frames`, a prefix of the log `all`, in log
/// order.
pub open spec fn hits_in(all: Seq<Frame>, frames: Seq<Frame>, req: SearchRequest) -> Seq<Key>
    decreases frames.len(),
{
    if frames.len() == 0 {
        seq![]
    } else {
        let c = hits_in(all, frames.drop_last(), req);
        let f = frames.last();
        if is_hit(all, f, req) {
            c.push((frame_score(all, f, query_terms(req.query@)), f.frame_id))
        } else {
            c
        }
    }
}

/// The keys of the hits of the log, in log order.
pub open spec fn candidates(frames: Seq<Frame>, req: SearchRequest) -> Seq<Key> {
    hits_in(frames, frames, req)
}

/// All hits of a request in rank order, before paging.
pub open spec fn ranked_hits(v: StoreView, req: SearchRequest) -> Seq<Key> {
    ranked(candidates(v.frames, req))
}

/// The cursor that a search hands out: after its last hit, where hits are
/// left past its page.
pub open spec fn next_cursor_of(v: StoreView, req: SearchRequest) -> Option<Cursor> {
    if search_keys(v, req).len() < resume(ranked_hits(v, req), req.cursor).len() {
        let last = search_keys(v, req).last();
        Some(Cursor { score: last.0, frame_id: last.1, as_of_frame: req.as_of_frame })
    } else {
        None
    }
}

/// A request resumes a cursor taken under another as-of bound.
pub open spec fn cursor_mismatch(req: SearchRequest) -> bool {
    match req.cursor {
        Some(c) => c.as_of_frame != req.as_of_frame,
        None => false,
    }
}

/// The keys of the hits that a search returns.
pub open spec fn search_keys(v: StoreView, req: SearchRequest) -> Seq<Key> {
    page(ranked_hits(v, req), req.cursor, req.top_k as nat)
}

/// Where a snippet of `w` bytes starts in a payload of `n` bytes whose first
/// match is at `p`: centred on the match, clipped to the payload.
pub open spec fn snippet_start(n: int, p: int, w: int) -> int {
    if n <= w {
        0
    } else {
        let s0 = if p - w / 2 < 0 {
            0
        } else {
            p - w / 2
        };
        if s0 > n - w {
            n - w
        } else {
            s0
        }
    }
}

/// A UTF-8 continuation byte: it never starts a character.
pub open spec fn is_continuation(b: u8) -> bool {
    128 <= b && b < 192
}

/// The first offset from `i` on, short of `end`, where a character starts.
pub open spec fn boundary_fwd(s: Seq<u8>, i: int, end: int) -> int
    decreases end - i,
{
    if 0 <= i < end && i < s.len() && is_continuation(s[i]) {
        boundary_fwd(s, i + 1, end)
    } else {
        i
    }
}

/// The last offset from `j` down, not below `start`, where a character starts
/// (or the payload ends).
pub open spec fn boundary_back(s: Seq<u8>, j: int, start: int) -> int
    decreases j - start,
{
    if start < j && 0 <= j < s.len() && is_continuation(s[j]) {
        boundary_back(s, j - 1, start)
    } else {
        j
    }
}

/// The snippet of a payload for the query terms: the whole payload where it
/// has at most `w` bytes; otherwise the window of `w` bytes around the first
/// occurrence of a query term (the start where none occurs), narrowed so
/// that it cuts no UTF-8 character. So it holds at most `w` characters.
pub open spec fn snippet_of(payload: Seq<u8>, q: Seq<Seq<u8>>, w: int) -> Seq<u8> {
    let n = payload.len() as int;
    let p = first_hit(tokens(payload), q);
    let st = snippet_start(n, if p < 0 {
        0
    } else {
        p
    }, w);
    if n <= w {
        payload
    } else {
        let a = boundary_fwd(payload, st, st + w);
        let b = boundary_back(payload, st + w, a);
        payload.subrange(a, b)
    }
}

/// A hit describes the frame with its key.
pub open spec fn hit_describes(h: SearchHit, k: Key, f: Frame, req: SearchRequest) -> bool {
    &&& h.score == k.0
    &&& h.frame_id == k.1
    &&& opt_view(h.uri) == opt_view(f.uri)
    &&& opt_view(h.title) == opt_view(f.title)
    &&& h.snippet@ == snippet_of(f.payload@, query_terms(req.query@), req.snippet_chars as int)
}

/// A frame falls in the time window of a timeline query.
pub open spec fn in_window(f: Frame, q: TimelineQuery) -> bool {
    &&& f.active
    &&& match q.since {
        Some(s) => s <= f.timestamp,
        None => true,
    }
    &&& match q.until {
        Some(u) => f.timestamp <= u,
        None => true,
    }
}

/// The frames in walking order: newest first where `reverse` holds.
pub open spec fn walk_order(frames: Seq<Frame>, reverse: bool) -> Seq<Frame> {
    if reverse {
        Seq::new(frames.len(), |j: int| frames[frames.len() - 1 - j])
    } else {
        frames
    }
}

/// The frames of `s` in the window, in the order of `s`.
pub open spec fn window(s: Seq<Frame>, q: TimelineQuery) -> Seq<Frame>
    decreases s.len(),
{
    if s.len() == 0 {
        s
    } else {
        let w = window(s.drop_last(), q);
        if in_window(s.last(), q) {
            w.push(s.last())
        } else {
            w
        }
    }
}

/// At most `k` of the first frames of `s`.
pub open spec fn first_frames(s: Seq<Frame>, k: nat) -> Seq<Frame> {
    if s.len() <= k {
        s
    } else {
        s.subrange(0, k as int)
    }
}

/// The frames that a timeline query returns, in order.
pub open spec fn timeline_frames(v: StoreView, q: TimelineQuery) -> Seq<Frame> {
    first_frames(window(walk_order(v.frames, q.reverse), q), q.limit as nat)
}

/// An entry describes a frame.
pub open spec fn entry_describes(e: TimelineEntry, f: Frame) -> bool {
    &&& e.frame_id == f.frame_id
    &&& e.timestamp == f.timestamp
    &&& opt_view(e.uri) == opt_view(f.uri)
    &&& e.preview@ == preview_of(f.payload@)
}

/// The preview of a payload: its first `PREVIEW_BYTES` bytes, cut back so
/// that no UTF-8 character is split.
pub open spec fn preview_of(payload: Seq<u8>) -> Seq<u8> {
    let cut = if payload.len() <= PREVIEW_BYTES {
        payload.len() as int
    } else {
        PREVIEW_BYTES as int
    };
    payload.subrange(0, boundary_back(payload, cut, 0))
}

/// Where the preview of a payload ends.
fn preview_len(p: &Vec<u8>) -> (r: usize)
    ensures
        r as int == boundary_back(
            p@,
            if p@.len() <= PREVIEW_BYTES {
                p@.len() as int
            } else {
                PREVIEW_BYTES as int
            },
            0,
        ),
        r <= p@.len(),
{
    let n = p.len();
    let cut: usize = if n <= PREVIEW_BYTES {
        n
    } else {
        PREVIEW_BYTES
    };
    let mut b: usize = cut;
    while 0 < b && b < n && p[b] >= 128 && p[b] < 192
        invariant
            b <= cut <= n,
            n == p@.len(),
            boundary_back(p@, b as int, 0) == boundary_back(p@, cut as int, 0),
        decreases b,
    {
        b = b - 1;
    }
    b
}

/// A copy of a byte string.
pub fn copy_bytes(v: &Vec<u8>) -> (r: Vec<u8>)
    ensures
        r@ == v@,
{
    let r = v.clone();
    proof {
        assert(r@ =~= v@);
    }
    r
}

fn copy_opt(o: &Option<Vec<u8>>) -> (r: Option<Vec<u8>>)
    ensures
        opt_view(r) == opt_view(*o),
{
    match o {
        Some(v) => Some(copy_bytes(v)),
        None => None,
    }
}

/// Bytes `start..end` of `v`.
fn copy_range(v: &Vec<u8>, start: usize, end: usize) -> (r: Vec<u8>)
    requires
        start <= end <= v@.len(),
    ensures
        r@ == v@.subrange(start as int, end as int),
{
    let mut r: Vec<u8> = Vec::new();
    let mut i: usize = start;
    while i < end
        invariant
            start <= i <= end,
            end <= v@.len(),
            r@ == v@.subrange(start as int, i as int),
        decreases end - i,
    {
        r.push(v[i]);
        proof {
            assert(r@ =~= v@.subrange(start as int, i + 1));
        }
        i = i + 1;
    }
    r
}

/// The terms of a query text.
pub fn query_term_list(query: &Vec<u8>) -> (r: Vec<Vec<u8>>)
    ensures
        terms_view(r@) == query_terms(query@),
{
    let toks = tokenize(query.as_slice());
    let mut r: Vec<Vec<u8>> = Vec::new();
    let mut i: usize = 0;
    while i < toks.len()
        invariant
            i <= toks@.len(),
            token_view(toks@) == tokens(query@),
            r@.len() == i,
            terms_view(r@) == texts(token_view(toks@)).subrange(0, i as int),
        decreases toks@.len() - i,
    {
        let t = copy_bytes(&toks[i].0);
        let ghost before = r@;
        r.push(t);
        proof {
            let want = texts(token_view(toks@)).subrange(0, i + 1);
            assert(want[i as int] == toks@[i as int].0@);
            assert forall|k: int| 0 <= k < i + 1 implies #[trigger] terms_view(r@)[k] == want[k] by {
                if k < i {
                    assert(r@[k] == before[k]);
                    assert(terms_view(before)[k] == want[k]);
                }
            }
            assert(terms_view(r@) =~= want);
        }
        i = i + 1;
    }
    proof {
        assert(texts(token_view(toks@)).subrange(0, i as int) =~= texts(token_view(toks@)));
    }
    r
}

fn prefix_of(p: &Vec<u8>, s: &Vec<u8>) -> (r: bool)
    ensures
        r == starts_with(s@, p@),
{
    if p.len() > s.len() {
        return false;
    }
    let mut i: usize = 0;
    while i < p.len()
        invariant
            i <= p@.len(),
            p@.len() <= s@.len(),
            forall|k: int| 0 <= k < i ==> s@[k] == p@[k],
        decreases p@.len() - i,
    {
        if p[i] != s[i] {
            return false;
        }
        i = i + 1;
    }
    true
}

fn filters_ok(f: &Frame, req: &SearchRequest) -> (r: bool)
    ensures
        r == passes_filters(*f, *req),
{
    let visible = f.active || match (req.as_of_frame, f.deactivated_at) {
        (Some(n), Some(l)) => n <= l,
        _ => false,
    };
    if !visible {
        return false;
    }
    let uri_ok = match &req.uri {
        Some(u) => match &f.uri {
            Some(fu) => same_bytes(fu, u),
            None => false,
        },
        None => true,
    };
    let scope_ok = match &req.scope {
        Some(p) => match &f.uri {
            Some(fu) => prefix_of(p, fu),
            None => false,
        },
        None => true,
    };
    let frame_ok = match req.as_of_frame {
        Some(n) => f.frame_id <= n,
        None => true,
    };
    let ts_ok = match req.as_of_ts {
        Some(t) => f.timestamp <= t,
        None => true,
    };
    uri_ok && scope_ok && frame_ok && ts_ok
}

proof fn lemma_sat_mul(x: nat, w: nat)
    ensures
        sat((sat(x) as nat * w) as nat) == sat(x * w),
{
    if x > u64::MAX && w >= 1 {
        assert(x * w >= x) by (nonlinear_arith)
            requires
                w >= 1,
        ;
        assert(u64::MAX as nat * w >= u64::MAX as nat) by (nonlinear_arith)
            requires
                w >= 1,
        ;
    }
    if w == 0 {
        assert(x * w == 0) by (nonlinear_arith)
            requires
                w == 0,
        ;
        assert(sat(x) as nat * w == 0) by (nonlinear_arith)
            requires
                w == 0,
        ;
    }
}

/// How often a term occurs in an indexed frame, saturating.
fn entry_tf(e: &IndexEntry, t: &Vec<u8>) -> (r: u64)
    ensures
        r == sat(
            term_count(token_view(e.payload_tokens@), t@) + term_count(token_view(e.title_tokens@), t@),
        ),
{
    let a = count_term(&e.payload_tokens, t) as u64;
    let b = count_term(&e.title_tokens, t) as u64;
    a.saturating_add(b)
}

/// The number of indexed frames that hold the term.
fn doc_freq_of(idx: &Vec<IndexEntry>, t: &Vec<u8>, Ghost(frames): Ghost<Seq<Frame>>) -> (r: u64)
    requires
        idx@.len() == frames.len(),
        frames.len() < u64::MAX,
        forall|i: int| 0 <= i < idx@.len() ==> entry_reflects(#[trigger] idx@[i], frames[i]),
    ensures
        r == doc_freq(frames, t@),
        r <= frames.len(),
{
    let mut df: u64 = 0;
    let mut i: usize = 0;
    while i < idx.len()
        invariant
            i <= idx@.len(),
            idx@.len() == frames.len(),
            frames.len() < u64::MAX,
            forall|j: int| 0 <= j < idx@.len() ==> entry_reflects(#[trigger] idx@[j], frames[j]),
            df == doc_freq(frames.subrange(0, i as int), t@),
            df <= i,
        decreases idx@.len() - i,
    {
        proof {
            assert(frames.subrange(0, i + 1).drop_last() =~= frames.subrange(0, i as int));
            assert(entry_reflects(idx@[i as int], frames[i as int]));
        }
        let c = entry_tf(&idx[i], t);
        if c > 0 {
            df = df + 1;
        }
        i = i + 1;
    }
    proof {
        assert(frames.subrange(0, i as int) =~= frames);
    }
    df
}

/// The weights of the query terms among the indexed frames.
fn term_weights(idx: &Vec<IndexEntry>, q: &Vec<Vec<u8>>, Ghost(frames): Ghost<Seq<Frame>>) -> (r:
    Vec<u64>)
    requires
        idx@.len() == frames.len(),
        frames.len() < u64::MAX,
        forall|i: int| 0 <= i < idx@.len() ==> entry_reflects(#[trigger] idx@[i], frames[i]),
    ensures
        r@.len() == q@.len(),
        forall|j: int| 0 <= j < q@.len() ==> #[trigger] r@[j] == term_weight(frames, q@[j]@),
{
    let n = idx.len() as u64;
    let mut w: Vec<u64> = Vec::new();
    let mut j: usize = 0;
    while j < q.len()
        invariant
            j <= q@.len(),
            n == frames.len(),
            idx@.len() == frames.len(),
            frames.len() < u64::MAX,
            forall|i: int| 0 <= i < idx@.len() ==> entry_reflects(#[trigger] idx@[i], frames[i]),
            w@.len() == j,
            forall|k: int| 0 <= k < j ==> #[trigger] w@[k] == term_weight(frames, q@[k]@),
        decreases q@.len() - j,
    {
        let df = doc_freq_of(idx, &q[j], Ghost(frames));
        w.push((n + 1) / (df + 1));
        j = j + 1;
    }
    w
}

/// The score of an indexed frame for the query terms and their weights.
fn score_entry(e: &IndexEntry, q: &Vec<Vec<u8>>, w: &Vec<u64>, Ghost(all): Ghost<Seq<Frame>>, Ghost(f): Ghost<Frame>) -> (r: u64)
    requires
        entry_reflects(*e, f),
        w@.len() == q@.len(),
        forall|j: int| 0 <= j < q@.len() ==> #[trigger] w@[j] == term_weight(all, q@[j]@),
    ensures
        r == frame_score(all, f, terms_view(q@)),
{
    let ghost qv = terms_view(q@);
    let mut acc: u64 = 0;
    let mut j: usize = 0;
    while j < q.len()
        invariant
            j <= q@.len(),
            qv == terms_view(q@),
            entry_reflects(*e, f),
            w@.len() == q@.len(),
            forall|k: int| 0 <= k < q@.len() ==> #[trigger] w@[k] == term_weight(all, q@[k]@),
            acc == sat(weighted_score(all, f, qv.subrange(0, j as int))),
        decreases q@.len() - j,
    {
        let tf = entry_tf(e, &q[j]);
        let wj = w[j];
        let p: u64 = match tf.checked_mul(wj) {
            Some(p) => p,
            None => u64::MAX,
        };
        proof {
            let sub = qv.subrange(0, j + 1);
            assert(sub.drop_last() =~= qv.subrange(0, j as int));
            assert(sub.last() == q@[j as int]@);
            lemma_sat_mul(frame_tf(f, q@[j as int]@), term_weight(all, q@[j as int]@));
        }
        acc = acc.saturating_add(p);
        j = j + 1;
    }
    proof {
        assert(qv.subrange(0, j as int) =~= qv);
    }
    acc
}

fn collect_candidates(
    frames: &Vec<Frame>,
    idx: &Vec<IndexEntry>,
    req: &SearchRequest,
    q: &Vec<Vec<u8>>,
) -> (r: Vec<Key>)
    requires
        idx@.len() == frames@.len(),
        frames@.len() < u64::MAX,
        forall|i: int| 0 <= i < idx@.len() ==> entry_reflects(#[trigger] idx@[i], frames@[i]),
        terms_view(q@) == query_terms(req.query@),
    ensures
        r@ == candidates(frames@, *req),
{
    let w = term_weights(idx, q, Ghost(frames@));
    let mut r: Vec<Key> = Vec::new();
    let mut i: usize = 0;
    while i < frames.len()
        invariant
            i <= frames@.len(),
            idx@.len() == frames@.len(),
            forall|j: int| 0 <= j < idx@.len() ==> entry_reflects(#[trigger] idx@[j], frames@[j]),
            terms_view(q@) == query_terms(req.query@),
            w@.len() == q@.len(),
            forall|j: int| 0 <= j < q@.len() ==> #[trigger] w@[j] == term_weight(frames@, q@[j]@),
            r@ == hits_in(frames@, frames@.subrange(0, i as int), *req),
        decreases frames@.len() - i,
    {
        proof {
            assert(frames@.subrange(0, i + 1).drop_last() =~= frames@.subrange(0, i as int));
            assert(entry_reflects(idx@[i as int], frames@[i as int]));
        }
        let f = &frames[i];
        if filters_ok(f, req) {
            let s = score_entry(&idx[i], q, &w, Ghost(frames@), Ghost(frames@[i as int]));
            if s > 0 {
                r.push((s, f.frame_id));
            }
        }
        i = i + 1;
    }
    proof {
        assert(frames@.subrange(0, i as int) =~= frames@);
    }
    r
}

fn snippet(f: &Frame, e: &IndexEntry, q: &Vec<Vec<u8>>, w: usize) -> (r: Vec<u8>)
    requires
        entry_reflects(*e, *f),
    ensures
        r@ == snippet_of(f.payload@, terms_view(q@), w as int),
{
    let n = f.payload.len();
    let p: usize = match first_match(&e.payload_tokens, q) {
        Some(p) => p,
        None => 0,
    };
    if n <= w {
        let all = copy_bytes(&f.payload);
        return all;
    }
    let half = w / 2;
    let s0: usize = if p < half {
        0
    } else {
        p - half
    };
    let st: usize = if s0 > n - w {
        n - w
    } else {
        s0
    };
    let end = st + w;
    let mut a: usize = st;
    while a < end && f.payload[a] >= 128 && f.payload[a] < 192
        invariant
            st <= a <= end,
            end <= f.payload@.len(),
            boundary_fwd(f.payload@, a as int, end as int) == boundary_fwd(
                f.payload@,
                st as int,
                end as int,
            ),
        decreases end - a,
    {
        a = a + 1;
    }
    let mut b: usize = end;
    while a < b && b < n && f.payload[b] >= 128 && f.payload[b] < 192
        invariant
            a <= b <= end,
            end <= n,
            n == f.payload@.len(),
            boundary_back(f.payload@, b as int, a as int) == boundary_back(
                f.payload@,
                end as int,
                a as int,
            ),
        decreases b - a,
    {
        b = b - 1;
    }
    copy_range(&f.payload, a, b)
}

impl Store {
    /// Searches the lexical index: the hits are the active frames that pass
    /// the request's filters and score above 0, ranked by score and then by
    /// newest frame, resumed after the cursor and cut to `top_k`. Fails with
    /// `IndexUnavailable` without a lexical index and with `InvalidInput` on
    /// a `top_k` of 0.
    pub fn search(&self, req: &SearchRequest) -> (r: Result<SearchResponse, StoreError>)
        requires
            self@.well_formed(),
        ensures
            self@.lex is None ==> r == Err::<SearchResponse, StoreError>(
                StoreError::IndexUnavailable,
            ),
            self@.lex is Some && (req.top_k == 0 || cursor_mismatch(*req)) ==> r == Err::<
                SearchResponse,
                StoreError,
            >(StoreError::InvalidInput),
            self@.lex is Some && req.top_k > 0 && !cursor_mismatch(*req) ==> r is Ok,
            r matches Ok(resp) ==> {
                &&& resp.total_hits == candidates(self@.frames, *req).len()
                &&& resp.hits@.len() == search_keys(self@, *req).len()
                &&& forall|j: int|
                    0 <= j < resp.hits@.len() ==> {
                        let k = search_keys(self@, *req)[j];
                        hit_describes(
                            #[trigger] resp.hits@[j],
                            k,
                            self@.frames[k.1 - 1],
                            *req,
                        )
                    }
                &&& forall|j: int|
                    0 <= j < resp.hits@.len() ==> 1 <= #[trigger] search_keys(self@, *req)[j].1
                        <= self@.frames.len()
                &&& resp.next_cursor == next_cursor_of(self@, *req)
            },
    {
        let idx = match self.lex_index() {
            Some(d) => d,
            None => {
                return Err(StoreError::IndexUnavailable);
            },
        };
        if req.top_k == 0 {
            return Err(StoreError::InvalidInput);
        }
        match req.cursor {
            Some(c) => {
                if c.as_of_frame != req.as_of_frame {
                    return Err(StoreError::InvalidInput);
                }
            },
            None => {},
        }
        let frames = self.frames();
        let q = query_term_list(&req.query);
        let cands = collect_candidates(frames, idx, req, &q);
        proof {
            lemma_candidates(self@.frames, *req);
            lemma_ranked(cands@);
        }
        let ranked_keys = rank_keys(&cands);
        let (keys, remaining) = take_page(&ranked_keys, req.cursor, req.top_k);
        proof {
            lemma_resume_len(ranked_keys@, req.cursor);
            let rs = resume(ranked_keys@, req.cursor);
            assert forall|y: Key| #[trigger] keys@.contains(y) implies 1 <= y.1 <= frames@.len() by {
                let k = choose|k: int| 0 <= k < keys@.len() && keys@[k] == y;
                assert(rs[k] == y);
                assert(rs.contains(y));
                assert(ranked_keys@.contains(y));
                assert(cands@.contains(y));
            }
        }
        let mut hits: Vec<SearchHit> = Vec::new();
        let mut j: usize = 0;
        assert forall|i: int| 0 <= i < keys@.len() implies 1 <= #[trigger] keys@[i].1 <= frames@.len() by {
            assert(keys@.contains(keys@[i]));
        }
        while j < keys.len()
            invariant
                j <= keys@.len(),
                keys@ == search_keys(self@, *req),
                frames@ == self@.frames,
                idx@.len() == frames@.len(),
                forall|i: int| 0 <= i < idx@.len() ==> entry_reflects(#[trigger] idx@[i], frames@[i]),
                terms_view(q@) == query_terms(req.query@),
                forall|y: Key| #[trigger] keys@.contains(y) ==> 1 <= y.1 <= frames@.len(),
            forall|i: int| 0 <= i < keys@.len() ==> 1 <= #[trigger] keys@[i].1 <= frames@.len(),
                hits@.len() == j,
                forall|i: int|
                    0 <= i < j ==> {
                        let k = keys@[i];
                        hit_describes(#[trigger] hits@[i], k, frames@[k.1 - 1], *req)
                    },
            decreases keys@.len() - j,
        {
            let k = keys[j];
            assert(keys@[j as int] == k);
            assert(keys@.contains(k));
            assert(1 <= k.1 <= frames@.len());
            assert(frames@.len() == frames.len());
            let i: usize = (k.1 - 1) as usize;
            assert(i as int == k.1 - 1);
            let f = &frames[i];
            assert(entry_reflects(idx@[i as int], frames@[i as int]));
            let ghost before = hits@;
            let h = SearchHit {
                frame_id: k.1,
                score: k.0,
                uri: copy_opt(&f.uri),
                title: copy_opt(&f.title),
                snippet: snippet(f, &idx[i], &q, req.snippet_chars),
            };
            hits.push(h);
            assert(hit_describes(hits@[j as int], k, frames@[i as int], *req));
            assert forall|m: int| 0 <= m < j + 1 implies {
                let km = keys@[m];
                hit_describes(#[trigger] hits@[m], km, frames@[km.1 - 1], *req)
            } by {
                if m < j {
                    assert(hits@[m] == before[m]);
                }
            }
            j = j + 1;
        }
        let next_cursor = if keys.len() < remaining {
            let last = keys[keys.len() - 1];
            Some(Cursor { score: last.0, frame_id: last.1, as_of_frame: req.as_of_frame })
        } else {
            None
        };
        Ok(SearchResponse { total_hits: cands.len(), hits, next_cursor })
    }
}

impl Store {
    /// A chronological window of the active frames: those within `since` and
    /// `until` (both inclusive), oldest first or, with `reverse`, newest
    /// first, at most `limit` of them. A `limit` of 0 is refused.
    pub fn timeline(&self, q: &TimelineQuery) -> (r: Result<Vec<TimelineEntry>, StoreError>)
        requires
            self@.well_formed(),
        ensures
            q.limit == 0 ==> r == Err::<Vec<TimelineEntry>, StoreError>(StoreError::InvalidInput),
            q.limit > 0 ==> r is Ok,
            r matches Ok(es) ==> {
                &&& es@.len() == timeline_frames(self@, *q).len()
                &&& forall|j: int|
                    0 <= j < es@.len() ==> entry_describes(
                        #[trigger] es@[j],
                        timeline_frames(self@, *q)[j],
                    )
            },
    {
        if q.limit == 0 {
            return Err(StoreError::InvalidInput);
        }
        let frames = self.frames();
        let n = frames.len();
        let ghost o = walk_order(frames@, q.reverse);
        let mut out: Vec<TimelineEntry> = Vec::new();
        let mut j: usize = 0;
        while j < n
            invariant
                j <= n,
                n == frames@.len(),
                frames@ == self@.frames,
                o == walk_order(frames@, q.reverse),
                q.limit > 0,
                out@.len() == first_frames(window(o.subrange(0, j as int), *q), q.limit as nat).len(),
                forall|i: int|
                    0 <= i < out@.len() ==> entry_describes(
                        #[trigger] out@[i],
                        first_frames(window(o.subrange(0, j as int), *q), q.limit as nat)[i],
                    ),
            decreases n - j,
        {
            let ghost w = window(o.subrange(0, j as int), *q);
            let ghost ff = first_frames(w, q.limit as nat);
            proof {
                assert(o.subrange(0, j + 1).drop_last() =~= o.subrange(0, j as int));
            }
            let i: usize = if q.reverse {
                n - 1 - j
            } else {
                j
            };
            let f = &frames[i];
            assert(o[j as int] == *f);
            let inside = f.active && match q.since {
                Some(s) => s <= f.timestamp,
                None => true,
            } && match q.until {
                Some(u) => f.timestamp <= u,
                None => true,
            };
            if inside {
                let ghost nw = w.push(*f);
                let ghost nf = first_frames(nw, q.limit as nat);
                if (out.len() as u64) < q.limit {
                    let plen: usize = preview_len(&f.payload);
                    let e = TimelineEntry {
                        frame_id: f.frame_id,
                        timestamp: f.timestamp,
                        uri: copy_opt(&f.uri),
                        preview: copy_range(&f.payload, 0, plen),
                    };
                    let ghost before = out@;
                    out.push(e);
                    proof {
                        assert(ff == w);
                        assert(nf == nw);
                        assert forall|m: int| 0 <= m < out@.len() implies entry_describes(
                            #[trigger] out@[m],
                            nf[m],
                        ) by {
                            if m < before.len() {
                                assert(out@[m] == before[m]);
                            }
                        }
                    }
                } else {
                    proof {
                        assert(nf =~= ff);
                    }
                }
            }
            j = j + 1;
        }
        proof {
            assert(o.subrange(0, n as int) =~= o);
        }
        Ok(out)
    }
}

/// The keys of the hits among a prefix of the log carry distinct, increasing
/// frame ids, each naming a frame of the prefix that is a hit, with that
/// frame's score.
pub proof fn lemma_hits_in(all: Seq<Frame>, frames: Seq<Frame>, req: SearchRequest)
    requires
        crate::store::ids_dense(frames),
    ensures
        distinct_ids(hits_in(all, frames, req)),
        forall|i: int, j: int|
            0 <= i < j < hits_in(all, frames, req).len() ==> (#[trigger] hits_in(all, frames, req)[i]).1
                < (#[trigger] hits_in(all, frames, req)[j]).1,
        forall|y: Key| #[trigger]
            hits_in(all, frames, req).contains(y) ==> {
                &&& 1 <= y.1 <= frames.len()
                &&& is_hit(all, frames[y.1 - 1], req)
                &&& y.0 == frame_score(all, frames[y.1 - 1], query_terms(req.query@))
            },
    decreases frames.len(),
{
    if frames.len() > 0 {
        let d = frames.drop_last();
        assert(crate::store::ids_dense(d)) by {
            assert forall|i: int| 0 <= i < d.len() implies (#[trigger] d[i]).frame_id == i + 1 by {
                assert(d[i] == frames[i]);
            }
        }
        lemma_hits_in(all, d, req);
        let c = hits_in(all, d, req);
        let f = frames.last();
        assert(f == frames[frames.len() - 1]);
        assert forall|y: Key| #[trigger] c.contains(y) implies y.1 < f.frame_id by {
            let k = choose|k: int| 0 <= k < c.len() && c[k] == y;
            assert(c.contains(c[k]));
        }
        let cc = hits_in(all, frames, req);
        assert forall|i: int, j: int| 0 <= i < j < cc.len() implies (#[trigger] cc[i]).1 < (
        #[trigger] cc[j]).1 by {
            if j == c.len() {
                assert(c.contains(c[i]));
            } else {
                assert(cc[i] == c[i] && cc[j] == c[j]);
            }
        }
        assert forall|y: Key| #[trigger] cc.contains(y) implies {
            &&& 1 <= y.1 <= frames.len()
            &&& is_hit(all, frames[y.1 - 1], req)
            &&& y.0 == frame_score(all, frames[y.1 - 1], query_terms(req.query@))
        } by {
            let k = choose|k: int| 0 <= k < cc.len() && cc[k] == y;
            if k < c.len() {
                assert(c[k] == y);
                assert(c.contains(y));
                assert(d[y.1 - 1] == frames[y.1 - 1]);
            }
        }
    }
}

/// The keys of the hits of a log carry distinct frame ids, each naming a
/// frame of the log that is a hit, with that frame's score.
pub proof fn lemma_candidates(frames: Seq<Frame>, req: SearchRequest)
    requires
        crate::store::ids_dense(frames),
    ensures
        distinct_ids(candidates(frames, req)),
        forall|y: Key| #[trigger]
            candidates(frames, req).contains(y) ==> {
                &&& 1 <= y.1 <= frames.len()
                &&& is_hit(frames, frames[y.1 - 1], req)
                &&& y.0 == frame_score(frames, frames[y.1 - 1], query_terms(req.query@))
            },
{
    lemma_hits_in(frames, frames, req);
}

} // verus!
