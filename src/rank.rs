use vstd::prelude::*;

verus! {

/// A ranking key: (score, frame id).
pub type Key = (u64, u64);

/// A resume point of a paginated search: the key of the last hit handed
/// out, and the as-of bound of the search that it belongs to.
#[derive(Debug, Clone, Copy, PartialEq, Eq, Structural)]
pub struct Cursor {
    pub score: u64,
    pub frame_id: u64,
    pub as_of_frame: Option<u64>,
}

/// `a` ranks before `b`: a higher score first, and on equal scores the
/// higher (more recent) frame id first.
pub open spec fn precedes(a: Key, b: Key) -> bool {
    a.0 > b.0 || (a.0 == b.0 && a.1 > b.1)
}

/// Every key ranks before every later key.
pub open spec fn strictly_ranked(r: Seq<Key>) -> bool {
    forall|i: int, j: int| 0 <= i < j < r.len() ==> precedes(#[trigger] r[i], #[trigger] r[j])
}

/// No two keys share a frame id.
pub open spec fn distinct_ids(s: Seq<Key>) -> bool {
    forall|i: int, j: int| 0 <= i < j < s.len() ==> (#[trigger] s[i]).1 != (#[trigger] s[j]).1
}

/// Inserts `x` into a ranked sequence before the first key that it precedes.
pub open spec fn insert_ranked(r: Seq<Key>, x: Key) -> Seq<Key>
    decreases r.len(),
{
    if r.len() == 0 {
        seq![x]
    } else if precedes(x, r[0]) {
        seq![x] + r
    } else {
        seq![r[0]] + insert_ranked(r.subrange(1, r.len() as int), x)
    }
}

/// The keys of `s` in rank order.
pub open spec fn ranked(s: Seq<Key>) -> Seq<Key>
    decreases s.len(),
{
    if s.len() == 0 {
        s
    } else {
        insert_ranked(ranked(s.drop_last()), s.last())
    }
}

/// The key of a cursor.
pub open spec fn cursor_key(c: Cursor) -> Key {
    (c.score, c.frame_id)
}

/// `x` lies past the resume point.
pub open spec fn after_cursor(c: Option<Cursor>, x: Key) -> bool {
    match c {
        Some(c) => precedes(cursor_key(c), x),
        None => true,
    }
}

/// The keys of `r` that lie past the resume point, in order.
pub open spec fn resume(r: Seq<Key>, c: Option<Cursor>) -> Seq<Key>
    decreases r.len(),
{
    if r.len() == 0 {
        r
    } else {
        let rest = resume(r.drop_last(), c);
        if after_cursor(c, r.last()) {
            rest.push(r.last())
        } else {
            rest
        }
    }
}

/// At most `k` of the first keys of `s`.
pub open spec fn first_n(s: Seq<Key>, k: nat) -> Seq<Key> {
    if s.len() <= k {
        s
    } else {
        s.subrange(0, k as int)
    }
}

/// One page: at most `k` keys of `r` past the resume point.
pub open spec fn page(r: Seq<Key>, c: Option<Cursor>, k: nat) -> Seq<Key> {
    first_n(resume(r, c), k)
}

proof fn lemma_insert_at(r: Seq<Key>, x: Key, p: int)
    requires
        0 <= p <= r.len(),
        forall|i: int| 0 <= i < p ==> !precedes(x, #[trigger] r[i]),
        p < r.len() ==> precedes(x, r[p]),
    ensures
        insert_ranked(r, x) == r.subrange(0, p).push(x) + r.subrange(p, r.len() as int),
    decreases p,
{
    if p == 0 {
        assert(r.subrange(0, 0).push(x) + r.subrange(0, r.len() as int) =~= seq![x] + r);
    } else {
        let t = r.subrange(1, r.len() as int);
        assert forall|i: int| 0 <= i < p - 1 implies !precedes(x, #[trigger] t[i]) by {
            assert(t[i] == r[i + 1]);
        }
        lemma_insert_at(t, x, p - 1);
        assert(seq![r[0]] + (t.subrange(0, p - 1).push(x) + t.subrange(p - 1, t.len() as int))
            =~= r.subrange(0, p).push(x) + r.subrange(p, r.len() as int));
    }
}

proof fn lemma_insert_ranked(r: Seq<Key>, x: Key)
    requires
        strictly_ranked(r),
        forall|i: int| 0 <= i < r.len() ==> (#[trigger] r[i]).1 != x.1,
    ensures
        strictly_ranked(insert_ranked(r, x)),
        insert_ranked(r, x).len() == r.len() + 1,
        forall|y: Key| #[trigger]
            insert_ranked(r, x).contains(y) <==> (y == x || r.contains(y)),
    decreases r.len(),
{
    let res = insert_ranked(r, x);
    if r.len() == 0 {
        assert forall|y: Key| #[trigger] res.contains(y) <==> (y == x || r.contains(y)) by {
            if res.contains(y) {
                assert(res[0] == x);
            }
            if y == x {
                assert(res[0] == y);
            }
        }
    } else if precedes(x, r[0]) {
        assert(strictly_ranked(res)) by {
            assert forall|i: int, j: int| 0 <= i < j < res.len() implies precedes(
                #[trigger] res[i],
                #[trigger] res[j],
            ) by {
                if i == 0 {
                    assert(res[j] == r[j - 1]);
                    if j > 1 {
                        assert(precedes(r[0], r[j - 1]));
                    }
                } else {
                    assert(res[i] == r[i - 1] && res[j] == r[j - 1]);
                }
            }
        }
        assert forall|y: Key| #[trigger] res.contains(y) <==> (y == x || r.contains(y)) by {
            if res.contains(y) {
                let i = choose|i: int| 0 <= i < res.len() && res[i] == y;
                if i > 0 {
                    assert(r[i - 1] == y);
                }
            }
            if y == x {
                assert(res[0] == y);
            }
            if r.contains(y) {
                let i = choose|i: int| 0 <= i < r.len() && r[i] == y;
                assert(res[i + 1] == y);
            }
        }
    } else {
        let t = r.subrange(1, r.len() as int);
        assert forall|i: int| 0 <= i < t.len() implies (#[trigger] t[i]).1 != x.1 by {
            assert(t[i] == r[i + 1]);
        }
        assert(strictly_ranked(t)) by {
            assert forall|i: int, j: int| 0 <= i < j < t.len() implies precedes(
                #[trigger] t[i],
                #[trigger] t[j],
            ) by {
                assert(t[i] == r[i + 1] && t[j] == r[j + 1]);
            }
        }
        lemma_insert_ranked(t, x);
        let u = insert_ranked(t, x);
        assert(res == seq![r[0]] + u);
        assert(precedes(r[0], x));
        assert forall|y: Key| #[trigger] u.contains(y) implies precedes(r[0], y) by {
            if y != x {
                let i = choose|i: int| 0 <= i < t.len() && t[i] == y;
                assert(t[i] == r[i + 1]);
            }
        }
        assert(strictly_ranked(res)) by {
            assert forall|i: int, j: int| 0 <= i < j < res.len() implies precedes(
                #[trigger] res[i],
                #[trigger] res[j],
            ) by {
                if i == 0 {
                    assert(res[j] == u[j - 1]);
                    assert(u.contains(u[j - 1]));
                } else {
                    assert(res[i] == u[i - 1] && res[j] == u[j - 1]);
                }
            }
        }
        assert forall|y: Key| #[trigger] res.contains(y) <==> (y == x || r.contains(y)) by {
            if res.contains(y) {
                let i = choose|i: int| 0 <= i < res.len() && res[i] == y;
                if i == 0 {
                    assert(r[0] == y);
                } else {
                    assert(u[i - 1] == y);
                    assert(u.contains(y));
                    if y != x {
                        let k = choose|k: int| 0 <= k < t.len() && t[k] == y;
                        assert(r[k + 1] == y);
                    }
                }
            }
            if y == x {
                assert(u.contains(y));
                let i = choose|i: int| 0 <= i < u.len() && u[i] == y;
                assert(res[i + 1] == y);
            }
            if r.contains(y) {
                let i = choose|i: int| 0 <= i < r.len() && r[i] == y;
                if i == 0 {
                    assert(res[0] == y);
                } else {
                    assert(t[i - 1] == y);
                    assert(t.contains(y));
                    assert(u.contains(y));
                    let k = choose|k: int| 0 <= k < u.len() && u[k] == y;
                    assert(res[k + 1] == y);
                }
            }
        }
    }
}

/// Ranking keys with distinct frame ids gives a strictly ranked sequence of
/// exactly those keys.
pub proof fn lemma_ranked(s: Seq<Key>)
    requires
        distinct_ids(s),
    ensures
        strictly_ranked(ranked(s)),
        ranked(s).len() == s.len(),
        forall|y: Key| #[trigger] ranked(s).contains(y) <==> s.contains(y),
    decreases s.len(),
{
    if s.len() > 0 {
        let d = s.drop_last();
        assert(distinct_ids(d)) by {
            assert forall|i: int, j: int| 0 <= i < j < d.len() implies (#[trigger] d[i]).1 != (
            #[trigger] d[j]).1 by {
                assert(d[i] == s[i] && d[j] == s[j]);
            }
        }
        lemma_ranked(d);
        let r = ranked(d);
        assert forall|i: int| 0 <= i < r.len() implies (#[trigger] r[i]).1 != s.last().1 by {
            assert(r.contains(r[i]));
            let k = choose|k: int| 0 <= k < d.len() && d[k] == r[i];
            assert(s[k] == d[k]);
        }
        lemma_insert_ranked(r, s.last());
        assert forall|y: Key| #[trigger] ranked(s).contains(y) <==> s.contains(y) by {
            if s.contains(y) && y != s.last() {
                let k = choose|k: int| 0 <= k < s.len() && s[k] == y;
                assert(d[k] == y);
                assert(d.contains(y));
            }
            if d.contains(y) {
                let k = choose|k: int| 0 <= k < d.len() && d[k] == y;
                assert(s[k] == y);
            }
            if y == s.last() {
                assert(s[s.len() - 1] == y);
            }
        }
    }
}

/// The resumed part of a sequence is no longer than the sequence.
pub proof fn lemma_resume_len(r: Seq<Key>, c: Option<Cursor>)
    ensures
        resume(r, c).len() <= r.len(),
        forall|y: Key| #[trigger] resume(r, c).contains(y) ==> r.contains(y),
    decreases r.len(),
{
    if r.len() > 0 {
        let d = r.drop_last();
        lemma_resume_len(d, c);
        assert forall|y: Key| #[trigger] resume(r, c).contains(y) implies r.contains(y) by {
            let rest = resume(d, c);
            if rest.contains(y) {
                let k = choose|k: int| 0 <= k < d.len() && d[k] == y;
                assert(r[k] == y);
            } else {
                assert(r[r.len() - 1] == y);
            }
        }
    }
}

/// In a strictly ranked sequence, resuming after its `m`-th key leaves
/// exactly the keys from position `m` on.
pub proof fn lemma_resume_after(r: Seq<Key>, m: int, cur: Cursor)
    requires
        strictly_ranked(r),
        1 <= m <= r.len(),
        cursor_key(cur) == r[m - 1],
    ensures
        resume(r, Some(cur)) == r.subrange(m, r.len() as int),
    decreases r.len(),
{
    let c = Some(cur);
    if r.len() == m {
        lemma_resume_none(r, c);
        assert(r.subrange(m, r.len() as int) =~= Seq::<Key>::empty());
    } else {
        let d = r.drop_last();
        assert(strictly_ranked(d)) by {
            assert forall|i: int, j: int| 0 <= i < j < d.len() implies precedes(
                #[trigger] d[i],
                #[trigger] d[j],
            ) by {
                assert(d[i] == r[i] && d[j] == r[j]);
            }
        }
        assert(d[m - 1] == r[m - 1]);
        lemma_resume_after(d, m, cur);
        assert(precedes(r[m - 1], r[r.len() - 1]));
        assert(d.subrange(m, d.len() as int).push(r.last()) =~= r.subrange(m, r.len() as int));
    }
}

proof fn lemma_resume_none(r: Seq<Key>, c: Option<Cursor>)
    requires
        c is Some,
        r.len() >= 1,
        strictly_ranked(r),
        c matches Some(cc) && cursor_key(cc) == r.last(),
    ensures
        resume(r, c).len() == 0,
{
    lemma_resume_none_prefix(r, c, r.len() as int);
    assert(r.subrange(0, r.len() as int) =~= r);
}

proof fn lemma_resume_none_prefix(r: Seq<Key>, c: Option<Cursor>, n: int)
    requires
        c is Some,
        r.len() >= 1,
        0 <= n <= r.len(),
        strictly_ranked(r),
        c matches Some(cc) && cursor_key(cc) == r.last(),
    ensures
        resume(r.subrange(0, n), c).len() == 0,
    decreases n,
{
    let p = r.subrange(0, n);
    if n > 0 {
        assert(p.drop_last() =~= r.subrange(0, n - 1));
        lemma_resume_none_prefix(r, c, n - 1);
        let i = n - 1;
        assert(p.last() == r[i]);
        if i < r.len() - 1 {
            assert(precedes(r[i], r[r.len() - 1]));
        }
    }
}

/// Inserts `x` into the ranked vector `r` at its place.
pub fn insert_key(r: &mut Vec<Key>, x: Key)
    ensures
        final(r)@ == insert_ranked(old(r)@, x),
{
    let mut p: usize = 0;
    let mut found = false;
    while p < r.len() && !found
        invariant
            p <= r@.len(),
            r@ == old(r)@,
            forall|i: int| 0 <= i < p ==> !precedes(x, #[trigger] r@[i]),
            found ==> p < r@.len() && precedes(x, r@[p as int]),
        decreases r@.len() - p + if found { 0int } else { 1int },
    {
        let y = r[p];
        if x.0 > y.0 || (x.0 == y.0 && x.1 > y.1) {
            found = true;
        } else {
            p = p + 1;
        }
    }
    proof {
        lemma_insert_at(r@, x, p as int);
    }
    r.insert(p, x);
    proof {
        assert(r@ =~= old(r)@.subrange(0, p as int).push(x) + old(r)@.subrange(
            p as int,
            old(r)@.len() as int,
        ));
    }
}

/// The keys in rank order.
pub fn rank_keys(s: &Vec<Key>) -> (r: Vec<Key>)
    ensures
        r@ == ranked(s@),
{
    let mut r: Vec<Key> = Vec::new();
    let mut i: usize = 0;
    while i < s.len()
        invariant
            i <= s@.len(),
            r@ == ranked(s@.subrange(0, i as int)),
        decreases s@.len() - i,
    {
        proof {
            assert(s@.subrange(0, i + 1).drop_last() =~= s@.subrange(0, i as int));
        }
        insert_key(&mut r, s[i]);
        i = i + 1;
    }
    proof {
        assert(s@.subrange(0, i as int) =~= s@);
    }
    r
}

/// One page of a ranked sequence: at most `k` keys past the cursor, and the
/// number of all keys past it.
pub fn take_page(r: &Vec<Key>, c: Option<Cursor>, k: usize) -> (out: (Vec<Key>, usize))
    ensures
        out.0@ == page(r@, c, k as nat),
        out.1 == resume(r@, c).len(),
{
    let mut out: Vec<Key> = Vec::new();
    let mut cnt: usize = 0;
    let mut i: usize = 0;
    while i < r.len()
        invariant
            i <= r@.len(),
            cnt == resume(r@.subrange(0, i as int), c).len(),
            out@ == page(r@.subrange(0, i as int), c, k as nat),
        decreases r@.len() - i,
    {
        let x = r[i];
        let ghost pre = r@.subrange(0, i as int);
        proof {
            assert(r@.subrange(0, i + 1).drop_last() =~= pre);
            lemma_resume_len(pre, c);
        }
        let after = match c {
            Some(cc) => cc.score > x.0 || (cc.score == x.0 && cc.frame_id > x.1),
            None => true,
        };
        if after {
            if out.len() < k {
                out.push(x);
            }
            cnt = cnt + 1;
            proof {
                let a = resume(pre, c);
                if a.len() > k {
                    assert(a.push(x).subrange(0, k as int) =~= a.subrange(0, k as int));
                }
            }
        }
        i = i + 1;
    }
    proof {
        assert(r@.subrange(0, i as int) =~= r@);
    }
    (out, cnt)
}

} // verus!
