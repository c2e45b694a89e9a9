use vstd::prelude::*;

use crate::query::{
    candidates, first_frames, next_cursor_of, hits_in, in_window, is_hit, lemma_candidates, opt_view, ranked_hits,
    search_keys, timeline_frames, walk_order, window, SearchRequest, TimelineQuery,
};
use crate::rank::{
    first_n, lemma_ranked, lemma_resume_after, lemma_resume_len, resume, Cursor, Key,
};
use crate::store::{Frame, StoreView};

verus! {

/// Frame ids in a store are 1, 2, 3, ... in log order: strictly increasing,
/// with no gap and no id used twice. `commit` keeps the store well formed and
/// hands out the ids that follow the last one, so this holds after any
/// sequence of puts and commits.
pub proof fn law_frame_ids_dense(v: StoreView)
    requires
        v.well_formed(),
    ensures
        forall|i: int| 0 <= i < v.frames.len() ==> (#[trigger] v.frames[i]).frame_id == i + 1,
        forall|i: int, j: int|
            0 <= i < j < v.frames.len() ==> (#[trigger] v.frames[i]).frame_id < (
            #[trigger] v.frames[j]).frame_id,
{
}

/// A search returns at most `top_k` hits, and never more than the total
/// number of hits that it reports.
pub proof fn law_search_bounds(v: StoreView, req: SearchRequest)
    requires
        v.well_formed(),
    ensures
        search_keys(v, req).len() <= req.top_k,
        search_keys(v, req).len() <= candidates(v.frames, req).len(),
{
    lemma_candidates(v.frames, req);
    lemma_ranked(candidates(v.frames, req));
    lemma_resume_len(ranked_hits(v, req), req.cursor);
}

/// A search bounded by `as_of_frame = n` returns no hit of a frame after
/// `n`; with `n = 0` it returns nothing.
pub proof fn law_as_of_frame(v: StoreView, req: SearchRequest, n: u64)
    requires
        v.well_formed(),
        req.as_of_frame == Some(n),
    ensures
        forall|j: int| 0 <= j < search_keys(v, req).len() ==> #[trigger] search_keys(v, req)[j].1 <= n,
        n == 0 ==> search_keys(v, req).len() == 0,
{
    let c = candidates(v.frames, req);
    let r = ranked_hits(v, req);
    let rs = resume(r, req.cursor);
    let keys = search_keys(v, req);
    lemma_candidates(v.frames, req);
    lemma_ranked(c);
    lemma_resume_len(r, req.cursor);
    assert forall|j: int| 0 <= j < keys.len() implies 1 <= #[trigger] keys[j].1 <= n by {
        let y = keys[j];
        assert(rs[j] == y);
        assert(rs.contains(y));
        assert(r.contains(y));
        assert(c.contains(y));
        assert(v.frames[y.1 - 1].frame_id == y.1);
    }
    if n == 0 && keys.len() > 0 {
        assert(1 <= keys[0].1 <= n);
    }
}

/// Two requests that ask for the same frames: the same query and filters,
/// whatever their cursor and page size.
pub open spec fn same_query(a: SearchRequest, b: SearchRequest) -> bool {
    &&& a.query@ == b.query@
    &&& opt_view(a.uri) == opt_view(b.uri)
    &&& opt_view(a.scope) == opt_view(b.scope)
    &&& a.as_of_frame == b.as_of_frame
    &&& a.as_of_ts == b.as_of_ts
}

proof fn lemma_same_hits(all: Seq<Frame>, frames: Seq<Frame>, a: SearchRequest, b: SearchRequest)
    requires
        same_query(a, b),
    ensures
        hits_in(all, frames, a) == hits_in(all, frames, b),
    decreases frames.len(),
{
    if frames.len() > 0 {
        lemma_same_hits(all, frames.drop_last(), a, b);
        assert(is_hit(all, frames.last(), a) == is_hit(all, frames.last(), b));
    }
}

proof fn lemma_resume_all(r: Seq<Key>)
    ensures
        resume(r, None) == r,
    decreases r.len(),
{
    if r.len() > 0 {
        lemma_resume_all(r.drop_last());
        assert(r.drop_last().push(r.last()) =~= r);
    }
}

/// Paging with cursors over an unchanged store gives the hits of one single
/// pass: the first page is the first `top_k` hits of the ranking; resuming
/// after the `m`-th hit gives the hits from position `m` on, as many as the
/// page holds; and a page as large as the total is the whole ranking. So no
/// hit is repeated or skipped.
pub proof fn law_cursor_pages(v: StoreView, first: SearchRequest, next: SearchRequest, m: int)
    requires
        v.well_formed(),
        same_query(first, next),
        first.cursor is None,
        1 <= m <= ranked_hits(v, first).len(),
        next.cursor == Some(
            Cursor {
                score: ranked_hits(v, first)[m - 1].0,
                frame_id: ranked_hits(v, first)[m - 1].1,
                as_of_frame: first.as_of_frame,
            },
        ),
    ensures
        ranked_hits(v, next) == ranked_hits(v, first),
        search_keys(v, first) == first_n(ranked_hits(v, first), first.top_k as nat),
        search_keys(v, next) == first_n(
            ranked_hits(v, first).subrange(m, ranked_hits(v, first).len() as int),
            next.top_k as nat,
        ),
        first.top_k == candidates(v.frames, first).len() ==> search_keys(v, first) == ranked_hits(
            v,
            first,
        ),
{
    let r = ranked_hits(v, first);
    lemma_same_hits(v.frames, v.frames, first, next);
    lemma_candidates(v.frames, first);
    lemma_ranked(candidates(v.frames, first));
    lemma_resume_all(r);
    lemma_resume_after(r, m, next.cursor.unwrap());
}

/// Timestamps ordered along a sequence: non-increasing where `rev` holds,
/// non-decreasing otherwise.
pub open spec fn time_ordered(s: Seq<Frame>, rev: bool) -> bool {
    forall|i: int, j: int|
        0 <= i < j < s.len() ==> if rev {
            (#[trigger] s[i]).timestamp >= (#[trigger] s[j]).timestamp
        } else {
            s[i].timestamp <= s[j].timestamp
        }
}

proof fn lemma_window_ordered(s: Seq<Frame>, q: TimelineQuery, rev: bool)
    requires
        time_ordered(s, rev),
    ensures
        time_ordered(window(s, q), rev),
        forall|f: Frame| #[trigger] window(s, q).contains(f) ==> s.contains(f),
    decreases s.len(),
{
    if s.len() > 0 {
        let d = s.drop_last();
        assert(time_ordered(d, rev)) by {
            assert forall|i: int, j: int| 0 <= i < j < d.len() implies if rev {
                (#[trigger] d[i]).timestamp >= (#[trigger] d[j]).timestamp
            } else {
                d[i].timestamp <= d[j].timestamp
            } by {
                assert(d[i] == s[i] && d[j] == s[j]);
            }
        }
        lemma_window_ordered(d, q, rev);
        let w = window(d, q);
        let x = s.last();
        assert forall|f: Frame| #[trigger] w.contains(f) implies if rev {
            f.timestamp >= x.timestamp
        } else {
            f.timestamp <= x.timestamp
        } by {
            let k = choose|k: int| 0 <= k < d.len() && d[k] == f;
            assert(s[k] == f);
            assert(s[s.len() - 1] == x);
        }
        if in_window(x, q) {
            let nw = w.push(x);
            assert forall|i: int, j: int| 0 <= i < j < nw.len() implies if rev {
                (#[trigger] nw[i]).timestamp >= (#[trigger] nw[j]).timestamp
            } else {
                nw[i].timestamp <= nw[j].timestamp
            } by {
                assert(nw[i] == w[i]);
                assert(w.contains(w[i]));
                if j < w.len() {
                    assert(nw[j] == w[j]);
                }
            }
        }
        assert forall|f: Frame| #[trigger] window(s, q).contains(f) implies s.contains(f) by {
            if w.contains(f) {
                let k = choose|k: int| 0 <= k < d.len() && d[k] == f;
                assert(s[k] == f);
            } else {
                assert(s[s.len() - 1] == f);
            }
        }
    }
}

/// A timeline lists its entries newest first (timestamps non-increasing)
/// with `reverse`, and oldest first (non-decreasing) without it.
pub proof fn law_timeline_ordered(v: StoreView, q: TimelineQuery)
    requires
        v.well_formed(),
    ensures
        time_ordered(timeline_frames(v, q), q.reverse),
{
    let o = walk_order(v.frames, q.reverse);
    assert(time_ordered(o, q.reverse)) by {
        assert forall|i: int, j: int| 0 <= i < j < o.len() implies if q.reverse {
            (#[trigger] o[i]).timestamp >= (#[trigger] o[j]).timestamp
        } else {
            o[i].timestamp <= o[j].timestamp
        } by {
            let n = v.frames.len() as int;
            if q.reverse {
                assert(o[i] == v.frames[n - 1 - i] && o[j] == v.frames[n - 1 - j]);
                assert(v.frames[n - 1 - j].timestamp <= v.frames[n - 1 - i].timestamp);
            } else {
                assert(v.frames[i].timestamp <= v.frames[j].timestamp);
            }
        }
    }
    lemma_window_ordered(o, q, q.reverse);
    let w = window(o, q);
    let t = first_frames(w, q.limit as nat);
    assert forall|i: int, j: int| 0 <= i < j < t.len() implies if q.reverse {
        (#[trigger] t[i]).timestamp >= (#[trigger] t[j]).timestamp
    } else {
        t[i].timestamp <= t[j].timestamp
    } by {
        assert(t[i] == w[i] && t[j] == w[j]);
    }
}

/// The request for the page that starts after the `m`-th hit of the ranking
/// (the first page for `m = 0`), following the cursors that the search hands
/// out.
pub open spec fn page_request(v: StoreView, req: SearchRequest, m: int) -> SearchRequest {
    if m == 0 {
        SearchRequest { cursor: None, ..req }
    } else {
        SearchRequest {
            cursor: Some(
                Cursor {
                    score: ranked_hits(v, req)[m - 1].0,
                    frame_id: ranked_hits(v, req)[m - 1].1,
                    as_of_frame: req.as_of_frame,
                },
            ),
            ..req
        }
    }
}

/// The hits of all pages from the one after the `m`-th hit on, one page
/// after another, until a page comes back empty.
pub open spec fn all_pages(v: StoreView, req: SearchRequest, m: int) -> Seq<Key>
    decreases ranked_hits(v, req).len() - m,
{
    let p = search_keys(v, page_request(v, req, m));
    if m < 0 || m >= ranked_hits(v, req).len() || p.len() == 0 || m + p.len() > ranked_hits(
        v,
        req,
    ).len() {
        seq![]
    } else {
        p + all_pages(v, req, m + p.len())
    }
}

/// Paging through a search with cursors, `top_k` hits at a time, over an
/// unchanged store, hands out exactly the hits of one single pass, in the
/// same order: no hit is repeated and none is skipped.
pub proof fn law_paging_is_one_pass(v: StoreView, req: SearchRequest)
    requires
        v.well_formed(),
        req.top_k >= 1,
    ensures
        all_pages(v, req, 0) == ranked_hits(v, req),
{
    lemma_pages_from(v, req, 0);
    assert(ranked_hits(v, req).subrange(0, ranked_hits(v, req).len() as int) =~= ranked_hits(
        v,
        req,
    ));
}

proof fn lemma_pages_from(v: StoreView, req: SearchRequest, m: int)
    requires
        v.well_formed(),
        req.top_k >= 1,
        0 <= m <= ranked_hits(v, req).len(),
    ensures
        all_pages(v, req, m) == ranked_hits(v, req).subrange(m, ranked_hits(v, req).len() as int),
    decreases ranked_hits(v, req).len() - m,
{
    let r = ranked_hits(v, req);
    let n = r.len() as int;
    if m == n {
        assert(r.subrange(m, n) =~= Seq::<Key>::empty());
    } else {
        let first = SearchRequest { cursor: None, ..req };
        let pr = page_request(v, req, m);
        assert(same_query(req, first));
        lemma_same_hits(v.frames, v.frames, req, first);
        assert(ranked_hits(v, first) == r);
        if m == 0 {
            lemma_resume_all(r);
            assert(search_keys(v, pr) == first_n(r, req.top_k as nat));
            assert(r.subrange(0, n) =~= r);
        } else {
            assert(same_query(first, pr));
            law_cursor_pages(v, first, pr, m);
        }
        let p = search_keys(v, pr);
        assert(p == first_n(r.subrange(m, n), req.top_k as nat));
        assert(p.len() >= 1);
        lemma_pages_from(v, req, m + p.len());
        assert(p + r.subrange(m + p.len(), n) =~= r.subrange(m, n));
    }
}

/// The cursor that a search hands out with a page is the cursor of the next
/// page of `all_pages`, and none is handed out with the last page: following
/// `next_cursor` from a first request walks exactly the pages whose hits
/// `law_paging_is_one_pass` joins into the single-pass ranking.
pub proof fn law_next_cursor_continues(v: StoreView, req: SearchRequest, m: int)
    requires
        v.well_formed(),
        req.top_k >= 1,
        0 <= m < ranked_hits(v, req).len(),
    ensures
        ({
            let p = search_keys(v, page_request(v, req, m));
            next_cursor_of(v, page_request(v, req, m)) == if m + p.len() < ranked_hits(
                v,
                req,
            ).len() {
                page_request(v, req, m + p.len()).cursor
            } else {
                None
            }
        }),
{
    let r = ranked_hits(v, req);
    let n = r.len() as int;
    let first = SearchRequest { cursor: None, ..req };
    let pr = page_request(v, req, m);
    assert(same_query(req, first));
    lemma_same_hits(v.frames, v.frames, req, first);
    assert(same_query(req, pr));
    lemma_same_hits(v.frames, v.frames, req, pr);
    assert(ranked_hits(v, pr) == r);
    lemma_candidates(v.frames, req);
    lemma_ranked(candidates(v.frames, req));
    if m == 0 {
        lemma_resume_all(r);
        assert(r.subrange(0, n) =~= r);
    } else {
        lemma_resume_after(r, m, pr.cursor.unwrap());
    }
    let rest = resume(ranked_hits(v, pr), pr.cursor);
    assert(rest == r.subrange(m, n));
    let p = search_keys(v, pr);
    assert(p == first_n(rest, req.top_k as nat));
    if m + p.len() < n {
        assert(p.last() == r[m + p.len() - 1]);
    }
}

} // verus!
