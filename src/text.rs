use vstd::prelude::*;

verus! {

/// A byte that belongs to a word: an ASCII letter or digit, or any byte of
/// a non-ASCII character (128 and above), so that words in other scripts
/// are found as whole words.
pub open spec fn is_word_byte(c: u8) -> bool {
    (48 <= c && c <= 57) || (65 <= c && c <= 90) || (97 <= c && c <= 122) || c >= 128
}

/// ASCII case folding of one byte.
pub open spec fn fold_byte(c: u8) -> u8 {
    if 65 <= c && c <= 90 {
        (c + 32) as u8
    } else {
        c
    }
}

/// Scans `s` left to right: the finished tokens (folded text, start offset)
/// and the folded word still open at the end of `s`.
pub open spec fn scan(s: Seq<u8>) -> (Seq<(Seq<u8>, int)>, Seq<u8>)
    decreases s.len(),
{
    if s.len() == 0 {
        (seq![], seq![])
    } else {
        let prev = scan(s.drop_last());
        let c = s.last();
        if is_word_byte(c) {
            (prev.0, prev.1.push(fold_byte(c)))
        } else if prev.1.len() > 0 {
            (prev.0.push((prev.1, s.len() - 1 - prev.1.len())), seq![])
        } else {
            prev
        }
    }
}

/// The tokens of `s`: maximal runs of word bytes, case-folded, each with the
/// offset at which it starts.
pub open spec fn tokens(s: Seq<u8>) -> Seq<(Seq<u8>, int)> {
    let st = scan(s);
    if st.1.len() > 0 {
        st.0.push((st.1, s.len() - st.1.len()))
    } else {
        st.0
    }
}

/// The texts of a token list, without offsets.
pub open spec fn texts(toks: Seq<(Seq<u8>, int)>) -> Seq<Seq<u8>> {
    toks.map_values(|t: (Seq<u8>, int)| t.0)
}

/// The spec view of a list of terms.
pub open spec fn terms_view(q: Seq<Vec<u8>>) -> Seq<Seq<u8>> {
    q.map_values(|t: Vec<u8>| t@)
}

/// The spec view of an executable token list.
pub open spec fn token_view(v: Seq<(Vec<u8>, usize)>) -> Seq<(Seq<u8>, int)> {
    v.map_values(|t: (Vec<u8>, usize)| (t.0@, t.1 as int))
}

/// How often the term `t` occurs in a token list.
pub open spec fn term_count(toks: Seq<(Seq<u8>, int)>, t: Seq<u8>) -> nat
    decreases toks.len(),
{
    if toks.len() == 0 {
        0
    } else {
        term_count(toks.drop_last(), t) + if toks.last().0 == t {
            1nat
        } else {
            0nat
        }
    }
}

/// A natural number held in a `u64`, saturating at the top.
pub open spec fn sat(n: nat) -> u64 {
    if n > u64::MAX {
        u64::MAX
    } else {
        n as u64
    }
}

/// Offset of the first token of `toks` whose text is one of the query terms,
/// or -1 where none is.
pub open spec fn first_hit(toks: Seq<(Seq<u8>, int)>, q: Seq<Seq<u8>>) -> int
    decreases toks.len(),
{
    if toks.len() == 0 {
        -1
    } else if q.contains(toks[0].0) {
        toks[0].1
    } else {
        first_hit(toks.subrange(1, toks.len() as int), q)
    }
}

/// Byte-wise equality of two byte strings.
pub fn same_bytes(a: &Vec<u8>, b: &Vec<u8>) -> (r: bool)
    ensures
        r == (a@ == b@),
{
    let r = *a == *b;
    proof {
        if r {
            assert(a@ =~= b@);
        }
    }
    r
}

fn is_word(c: u8) -> (r: bool)
    ensures
        r == is_word_byte(c),
{
    (48 <= c && c <= 57) || (65 <= c && c <= 90) || (97 <= c && c <= 122) || c >= 128
}

fn fold(c: u8) -> (r: u8)
    ensures
        r == fold_byte(c),
{
    if 65 <= c && c <= 90 {
        c + 32
    } else {
        c
    }
}

/// Splits `s` into case-folded word tokens with their start offsets.
pub fn tokenize(s: &[u8]) -> (r: Vec<(Vec<u8>, usize)>)
    ensures
        token_view(r@) == tokens(s@),
{
    let mut out: Vec<(Vec<u8>, usize)> = Vec::new();
    let mut cur: Vec<u8> = Vec::new();
    let n = s.len();
    let mut i: usize = 0;
    while i < n
        invariant
            i <= n,
            n == s@.len(),
            (token_view(out@), cur@) == scan(s@.subrange(0, i as int)),
            cur@.len() <= i,
        decreases n - i,
    {
        let c = s[i];
        proof {
            assert(s@.subrange(0, i + 1).drop_last() =~= s@.subrange(0, i as int));
        }
        if is_word(c) {
            cur.push(fold(c));
        } else if cur.len() > 0 {
            let start: usize = i - cur.len();
            let done = cur;
            cur = Vec::new();
            out.push((done, start));
            proof {
                assert(token_view(out@) =~= scan(s@.subrange(0, i as int)).0.push(
                    (done@, start as int),
                ));
            }
        }
        i = i + 1;
    }
    proof {
        assert(s@.subrange(0, n as int) =~= s@);
    }
    if cur.len() > 0 {
        let start: usize = n - cur.len();
        let last = cur;
        out.push((last, start));
        proof {
            assert(token_view(out@) =~= scan(s@).0.push((last@, start as int)));
        }
    }
    out
}

/// How often `t` occurs among the tokens.
pub fn count_term(toks: &Vec<(Vec<u8>, usize)>, t: &Vec<u8>) -> (r: usize)
    ensures
        r as nat == term_count(token_view(toks@), t@),
{
    let mut k: usize = 0;
    let mut i: usize = 0;
    while i < toks.len()
        invariant
            i <= toks@.len(),
            k as nat == term_count(token_view(toks@).subrange(0, i as int), t@),
            k <= i,
        decreases toks@.len() - i,
    {
        proof {
            assert(token_view(toks@).subrange(0, i + 1).drop_last() =~= token_view(
                toks@,
            ).subrange(0, i as int));
        }
        assert(token_view(toks@)[i as int].0 == toks@[i as int].0@);
        if same_bytes(&toks[i].0, t) {
            k = k + 1;
        }
        i = i + 1;
    }
    proof {
        assert(token_view(toks@).subrange(0, i as int) =~= token_view(toks@));
    }
    k
}

fn contains_term(q: &Vec<Vec<u8>>, t: &Vec<u8>) -> (r: bool)
    ensures
        r == terms_view(q@).contains(t@),
{
    let ghost qv = terms_view(q@);
    let mut j: usize = 0;
    while j < q.len()
        invariant
            j <= q@.len(),
            qv == terms_view(q@),
            forall|k: int| 0 <= k < j ==> qv[k] != t@,
        decreases q@.len() - j,
    {
        if same_bytes(&q[j], t) {
            assert(qv[j as int] == t@);
            return true;
        }
        j = j + 1;
    }
    false
}

/// Offset of the first token that is one of the query terms, if any.
pub fn first_match(toks: &Vec<(Vec<u8>, usize)>, q: &Vec<Vec<u8>>) -> (r: Option<usize>)
    ensures
        first_hit(token_view(toks@), terms_view(q@)) == match r {
            Some(p) => p as int,
            None => -1,
        },
{
    let ghost qv = terms_view(q@);
    let ghost tv = token_view(toks@);
    let mut i: usize = 0;
    assert(tv.subrange(0, tv.len() as int) =~= tv);
    while i < toks.len()
        invariant
            i <= toks@.len(),
            qv == terms_view(q@),
            tv == token_view(toks@),
            first_hit(tv, qv) == first_hit(tv.subrange(i as int, tv.len() as int), qv),
        decreases toks@.len() - i,
    {
        let ghost rest = tv.subrange(i as int, tv.len() as int);
        proof {
            assert(rest.subrange(1, rest.len() as int) =~= tv.subrange(i + 1, tv.len() as int));
        }
        if contains_term(q, &toks[i].0) {
            return Some(toks[i].1);
        }
        i = i + 1;
    }
    None
}

} // verus!
