use vstd::prelude::*;

verus! {

/// The four little-endian bytes of a `u32`.
pub open spec fn u32_le(x: u32) -> Seq<u8> {
    seq![
        (x & 0xff) as u8,
        ((x >> 8u32) & 0xff) as u8,
        ((x >> 16u32) & 0xff) as u8,
        ((x >> 24u32) & 0xff) as u8,
    ]
}

/// The `u32` stored little-endian at `pos`.
pub open spec fn le_u32(s: Seq<u8>, pos: int) -> u32 {
    (s[pos] as u32) | ((s[pos + 1] as u32) << 8u32) | ((s[pos + 2] as u32) << 16u32) | ((s[pos
        + 3] as u32) << 24u32)
}

/// A rolling checksum of a byte string: h' = 31 h + b, modulo 2^32.
pub open spec fn checksum(s: Seq<u8>) -> u32
    decreases s.len(),
{
    if s.len() == 0 {
        0
    } else {
        ((checksum(s.drop_last()) as int * 31 + s.last() as int) % 4294967296) as u32
    }
}

/// A length-prefixed byte string.
pub open spec fn blob(b: Seq<u8>) -> Seq<u8> {
    u32_le(b.len() as u32) + b
}

/// The head of a record: its kind and the length of its body.
pub open spec fn record_head(kind: u8, body: Seq<u8>) -> Seq<u8> {
    seq![kind] + blob(body)
}

/// One self-delimiting record: kind, body length, body, and a checksum of
/// all of these.
pub open spec fn record_bytes(kind: u8, body: Seq<u8>) -> Seq<u8> {
    record_head(kind, body) + u32_le(checksum(record_head(kind, body)))
}

/// Reads the record at `pos`: its kind, its body and where the next record
/// starts. Fails where the bytes end early or the checksum does not match.
pub open spec fn parse_record(s: Seq<u8>, pos: int) -> Option<(u8, Seq<u8>, int)> {
    if pos < 0 || pos + 5 > s.len() {
        None
    } else {
        let n = le_u32(s, pos + 1) as int;
        if pos + 9 + n > s.len() {
            None
        } else if le_u32(s, pos + 5 + n) != checksum(s.subrange(pos, pos + 5 + n)) {
            None
        } else {
            Some((s[pos], s.subrange(pos + 5, pos + 5 + n), pos + 9 + n))
        }
    }
}

/// The records that can be read from `pos` on, up to the first that cannot.
pub open spec fn log_records(s: Seq<u8>, pos: int) -> Seq<(u8, Seq<u8>)>
    decreases s.len() - pos,
{
    match parse_record(s, pos) {
        Some((k, b, next)) => if next > pos {
            seq![(k, b)] + log_records(s, next)
        } else {
            seq![]
        },
        None => seq![],
    }
}

/// The bytes of a sequence of records, one after another.
pub open spec fn records_bytes(rs: Seq<(u8, Seq<u8>)>) -> Seq<u8>
    decreases rs.len(),
{
    if rs.len() == 0 {
        seq![]
    } else {
        record_bytes(rs[0].0, rs[0].1) + records_bytes(rs.subrange(1, rs.len() as int))
    }
}

/// The spec view of decoded records.
pub open spec fn record_view(v: Seq<(u8, Vec<u8>)>) -> Seq<(u8, Seq<u8>)> {
    v.map_values(|x: (u8, Vec<u8>)| (x.0, x.1@))
}

/// Every body is short enough for its length to fit in a `u32`.
pub open spec fn bodies_fit(rs: Seq<(u8, Seq<u8>)>) -> bool {
    forall|i: int| 0 <= i < rs.len() ==> (#[trigger] rs[i]).1.len() < 4294967296
}

/// A `u32` is read back from its four bytes.
pub proof fn lemma_u32_le(x: u32)
    ensures
        le_u32(u32_le(x), 0) == x,
{
    let b0 = (x & 0xff) as u8;
    let b1 = ((x >> 8u32) & 0xff) as u8;
    let b2 = ((x >> 16u32) & 0xff) as u8;
    let b3 = ((x >> 24u32) & 0xff) as u8;
    assert(b0 == (x & 0xff) as u8 && b1 == ((x >> 8u32) & 0xff) as u8 && b2 == ((x >> 16u32)
        & 0xff) as u8 && b3 == ((x >> 24u32) & 0xff) as u8 ==> (b0 as u32) | ((b1 as u32) << 8u32)
        | ((b2 as u32) << 16u32) | ((b3 as u32) << 24u32) == x) by (bit_vector);
}

/// The `u32` at `pos` is read back from its encoding wherever it stands.
pub proof fn lemma_read_u32(s: Seq<u8>, pos: int, x: u32)
    requires
        0 <= pos,
        pos + 4 <= s.len(),
        s.subrange(pos, pos + 4) == u32_le(x),
    ensures
        le_u32(s, pos) == x,
{
    lemma_u32_le(x);
    let e = u32_le(x);
    assert(s[pos] == e[0] && s[pos + 1] == e[1] && s[pos + 2] == e[2] && s[pos + 3] == e[3]) by {
        assert(s.subrange(pos, pos + 4)[0] == s[pos]);
        assert(s.subrange(pos, pos + 4)[1] == s[pos + 1]);
        assert(s.subrange(pos, pos + 4)[2] == s[pos + 2]);
        assert(s.subrange(pos, pos + 4)[3] == s[pos + 3]);
    }
}

/// A record is read back from its bytes wherever it stands.
pub proof fn lemma_parse_record(s: Seq<u8>, pos: int, kind: u8, body: Seq<u8>)
    requires
        0 <= pos,
        body.len() < 4294967296,
        pos + record_bytes(kind, body).len() <= s.len(),
        s.subrange(pos, pos + record_bytes(kind, body).len()) == record_bytes(kind, body),
    ensures
        parse_record(s, pos) == Some((kind, body, pos + record_bytes(kind, body).len())),
        record_bytes(kind, body).len() == body.len() + 9,
{
    let r = record_bytes(kind, body);
    let n = body.len() as int;
    assert(r.len() == n + 9);
    assert forall|k: int| 0 <= k < r.len() implies s[pos + k] == r[k] by {
        assert(s.subrange(pos, pos + r.len())[k] == s[pos + k]);
    }
    assert(r.subrange(5, 5 + n) =~= body);
    assert(s.subrange(pos + 1, pos + 5) =~= r.subrange(1, 5));
    assert(r.subrange(1, 5) =~= u32_le(n as u32));
    lemma_read_u32(s, pos + 1, n as u32);
    assert(s.subrange(pos, pos + 5 + n) =~= r.subrange(0, 5 + n));
    assert(r.subrange(0, 5 + n) =~= record_head(kind, body));
    assert(s.subrange(pos + 5 + n, pos + 9 + n) =~= r.subrange(5 + n, 9 + n));
    assert(r.subrange(5 + n, 9 + n) =~= u32_le(checksum(record_head(kind, body))));
    lemma_read_u32(s, pos + 5 + n, checksum(record_head(kind, body)));
    assert(s.subrange(pos + 5, pos + 5 + n) =~= body);
    assert(s[pos] == r[0]);
}

/// A record cut short cannot be read.
pub proof fn lemma_parse_torn(s: Seq<u8>, pos: int, kind: u8, body: Seq<u8>, cut: int)
    requires
        0 <= pos,
        body.len() < 4294967296,
        0 <= cut < record_bytes(kind, body).len(),
        s.len() == pos + cut,
        s.subrange(pos, pos + cut) == record_bytes(kind, body).subrange(0, cut),
    ensures
        parse_record(s, pos) is None,
{
    let r = record_bytes(kind, body);
    let n = body.len() as int;
    assert forall|k: int| 0 <= k < cut implies s[pos + k] == r[k] by {
        assert(s.subrange(pos, pos + cut)[k] == s[pos + k]);
    }
    if pos + 5 <= s.len() {
        assert(s.subrange(pos + 1, pos + 5) =~= r.subrange(1, 5));
        assert(r.subrange(1, 5) =~= u32_le(n as u32));
        lemma_read_u32(s, pos + 1, n as u32);
    }
}

/// Bytes appended after a record do not change how it reads.
pub proof fn lemma_parse_shift(a: Seq<u8>, t: Seq<u8>, i: int)
    requires
        0 <= i,
    ensures
        parse_record(a + t, a.len() + i) == match parse_record(t, i) {
            Some((k, b, next)) => Some((k, b, a.len() + next)),
            None => None,
        },
{
    let s = a + t;
    let p = a.len() + i;
    if p + 5 <= s.len() {
        assert(s.subrange(p, p + 5) =~= t.subrange(i, i + 5));
        assert(s[p] == t[i]);
        assert(le_u32(s, p + 1) == le_u32(t, i + 1)) by {
            assert(s[p + 1] == t[i + 1] && s[p + 2] == t[i + 2] && s[p + 3] == t[i + 3] && s[p
                + 4] == t[i + 4]);
        }
        let n = le_u32(s, p + 1) as int;
        if p + 9 + n <= s.len() {
            assert(s.subrange(p, p + 5 + n) =~= t.subrange(i, i + 5 + n));
            assert(s.subrange(p + 5, p + 5 + n) =~= t.subrange(i + 5, i + 5 + n));
            let c = p + 5 + n;
            let d = i + 5 + n;
            assert(le_u32(s, c) == le_u32(t, d)) by {
                assert(s[c] == t[d] && s[c + 1] == t[d + 1] && s[c + 2] == t[d + 2] && s[c + 3]
                    == t[d + 3]);
            }
        }
    }
}

/// Reading records from a point in `t` is the same with bytes put before it.
pub proof fn lemma_log_shift(a: Seq<u8>, t: Seq<u8>, i: int)
    requires
        0 <= i,
    ensures
        log_records(a + t, a.len() + i) == log_records(t, i),
    decreases t.len() - i,
{
    lemma_parse_shift(a, t, i);
    match parse_record(t, i) {
        Some((k, b, next)) => {
            if next > i {
                lemma_log_shift(a, t, next);
            }
        },
        None => {},
    }
}

/// The records of bytes written record after record are those records.
#[verifier::rlimit(50)]
pub proof fn lemma_records_roundtrip(rs: Seq<(u8, Seq<u8>)>, t: Seq<u8>)
    requires
        bodies_fit(rs),
    ensures
        log_records(records_bytes(rs) + t, 0) == rs + log_records(t, 0),
    decreases rs.len(),
{
    if rs.len() == 0 {
        assert(records_bytes(rs) + t =~= t);
        assert(rs + log_records(t, 0) =~= log_records(t, 0));
    } else {
        let first = record_bytes(rs[0].0, rs[0].1);
        let rest = rs.subrange(1, rs.len() as int);
        assert(bodies_fit(rest)) by {
            assert forall|i: int| 0 <= i < rest.len() implies (#[trigger] rest[i]).1.len()
                < 4294967296 by {
                assert(rest[i] == rs[i + 1]);
            }
        }
        assert(rs[0].1.len() < 4294967296);
        let s = records_bytes(rs) + t;
        let tail = records_bytes(rest) + t;
        assert(records_bytes(rs) == first + records_bytes(rest));
        assert(s =~= first + tail);
        assert(s.subrange(0, first.len() as int) =~= first);
        lemma_parse_record(s, 0, rs[0].0, rs[0].1);
        lemma_log_shift(first, tail, 0);
        lemma_records_roundtrip(rest, t);
        assert(rs =~= seq![(rs[0].0, rs[0].1)] + rest);
        assert(seq![(rs[0].0, rs[0].1)] + (rest + log_records(t, 0)) =~= rs + log_records(t, 0));
    }
}

/// Records cut short: the records that can be read back are the complete
/// ones before the cut.
#[verifier::rlimit(80)]
pub proof fn lemma_records_torn(rs: Seq<(u8, Seq<u8>)>, cut: int)
    requires
        bodies_fit(rs),
        0 <= cut < records_bytes(rs).len(),
    ensures
        exists|m: int|
            0 <= m < rs.len() && #[trigger] log_records(records_bytes(rs).subrange(0, cut), 0)
                == rs.subrange(0, m),
    decreases rs.len(),
{
    let first = record_bytes(rs[0].0, rs[0].1);
    let rest = rs.subrange(1, rs.len() as int);
    let all = records_bytes(rs);
    let s = all.subrange(0, cut);
    assert(rs[0].1.len() < 4294967296);
    assert(all =~= first + records_bytes(rest));
    if cut < first.len() {
        assert(s.subrange(0, cut) =~= first.subrange(0, cut));
        lemma_parse_torn(s, 0, rs[0].0, rs[0].1, cut);
        assert(log_records(s, 0) =~= rs.subrange(0, 0));
    } else {
        assert(bodies_fit(rest)) by {
            assert forall|i: int| 0 <= i < rest.len() implies (#[trigger] rest[i]).1.len()
                < 4294967296 by {
                assert(rest[i] == rs[i + 1]);
            }
        }
        let c2 = cut - first.len();
        let t = records_bytes(rest).subrange(0, c2);
        assert(s =~= first + t);
        assert(s.subrange(0, first.len() as int) =~= first);
        lemma_parse_record(s, 0, rs[0].0, rs[0].1);
        lemma_log_shift(first, t, 0);
        lemma_records_torn(rest, c2);
        let m = choose|m: int|
            0 <= m < rest.len() && #[trigger] log_records(records_bytes(rest).subrange(0, c2), 0)
                == rest.subrange(0, m);
        assert(seq![(rs[0].0, rs[0].1)] + rest.subrange(0, m) =~= rs.subrange(0, m + 1));
        assert(log_records(records_bytes(rs).subrange(0, cut), 0) == rs.subrange(0, m + 1));
    }
}

pub fn push_u32(out: &mut Vec<u8>, x: u32)
    ensures
        final(out)@ == old(out)@ + u32_le(x),
{
    out.push((x & 0xff) as u8);
    out.push(((x >> 8u32) & 0xff) as u8);
    out.push(((x >> 16u32) & 0xff) as u8);
    out.push(((x >> 24u32) & 0xff) as u8);
    proof {
        assert(final(out)@ =~= old(out)@ + u32_le(x));
    }
}

pub fn push_all(out: &mut Vec<u8>, b: &Vec<u8>)
    ensures
        final(out)@ == old(out)@ + b@,
{
    let mut i: usize = 0;
    while i < b.len()
        invariant
            i <= b@.len(),
            out@ == old(out)@ + b@.subrange(0, i as int),
        decreases b@.len() - i,
    {
        out.push(b[i]);
        proof {
            assert(out@ =~= old(out)@ + b@.subrange(0, i + 1));
        }
        i = i + 1;
    }
    proof {
        assert(b@.subrange(0, i as int) =~= b@);
    }
}

/// Reads a little-endian `u32` at `pos`.
pub fn read_u32_at(s: &Vec<u8>, pos: usize) -> (r: u32)
    requires
        pos + 4 <= s@.len(),
    ensures
        r == le_u32(s@, pos as int),
{
    assert(s@.len() == s.len());
    (s[pos] as u32) | ((s[pos + 1] as u32) << 8u32) | ((s[pos + 2] as u32) << 16u32) | ((s[pos
        + 3] as u32) << 24u32)
}

/// The checksum of bytes `start..end` of `s`.
pub fn checksum_range(s: &Vec<u8>, start: usize, end: usize) -> (r: u32)
    requires
        start <= end <= s@.len(),
    ensures
        r == checksum(s@.subrange(start as int, end as int)),
{
    let mut h: u32 = 0;
    let mut i: usize = start;
    while i < end
        invariant
            start <= i <= end <= s@.len(),
            h == checksum(s@.subrange(start as int, i as int)),
        decreases end - i,
    {
        proof {
            assert(s@.subrange(start as int, i + 1).drop_last() =~= s@.subrange(
                start as int,
                i as int,
            ));
        }
        h = ((h as u64 * 31 + s[i] as u64) % 4294967296) as u32;
        i = i + 1;
    }
    h
}

/// Encodes one record.
pub fn encode_record(kind: u8, body: &Vec<u8>) -> (r: Vec<u8>)
    requires
        body@.len() < 4294967296,
    ensures
        r@ == record_bytes(kind, body@),
{
    let mut out: Vec<u8> = Vec::new();
    out.push(kind);
    push_u32(&mut out, body.len() as u32);
    push_all(&mut out, body);
    proof {
        assert(out@ =~= record_head(kind, body@));
    }
    let n = out.len();
    let c = checksum_range(&out, 0, n);
    proof {
        assert(out@.subrange(0, n as int) =~= out@);
    }
    push_u32(&mut out, c);
    out
}

/// Reads the record at `pos`, as `parse_record` says.
pub fn decode_record(s: &Vec<u8>, pos: usize) -> (r: Option<(u8, Vec<u8>, usize)>)
    ensures
        match r {
            Some((k, b, next)) => parse_record(s@, pos as int) == Some(
                (k, b@, next as int),
            ),
            None => parse_record(s@, pos as int) is None,
        },
{
    if pos > s.len() || s.len() - pos < 5 {
        return None;
    }
    let n = read_u32_at(s, pos + 1) as usize;
    if s.len() - pos - 5 < n || s.len() - pos - 5 - n < 4 {
        return None;
    }
    let stored = read_u32_at(s, pos + 5 + n);
    let c = checksum_range(s, pos, pos + 5 + n);
    if stored != c {
        return None;
    }
    let mut body: Vec<u8> = Vec::new();
    let end: usize = pos + 5 + n;
    let mut i: usize = pos + 5;
    while i < end
        invariant
            pos + 5 <= i <= end <= s@.len(),
            end == pos + 5 + n,
            body@ == s@.subrange(pos + 5, i as int),
        decreases end - i,
    {
        body.push(s[i]);
        proof {
            assert(body@ =~= s@.subrange(pos + 5, i + 1));
        }
        i = i + 1;
    }
    Some((s[pos], body, pos + 9 + n))
}

/// Reads all the records from `pos` on, up to the first that cannot be read;
/// returns them and where reading stopped.
pub fn decode_records(s: &Vec<u8>, pos: usize) -> (r: (Vec<(u8, Vec<u8>)>, usize))
    ensures
        record_view(r.0@) == log_records(s@, pos as int),
        parse_record(s@, r.1 as int) is None,
{
    let mut out: Vec<(u8, Vec<u8>)> = Vec::new();
    let mut p: usize = pos;
    let ghost total = log_records(s@, pos as int);
    loop
        invariant
            total == log_records(s@, pos as int),
            record_view(out@) + log_records(s@, p as int) == total,
        decreases s@.len() - p,
    {
        match decode_record(s, p) {
            Some((k, b, next)) => {
                let ghost before = record_view(out@);
                proof {
                    assert(next <= s@.len());
                }
                out.push((k, b));
                proof {
                    assert(record_view(out@) =~= before.push((k, b@)));
                    assert(before.push((k, b@)) + log_records(s@, next as int) =~= before + (seq![(k, b@)] + log_records(s@, next as int)));
                }
                p = next;
            },
            None => {
                proof {
                    assert(log_records(s@, p as int) =~= seq![]);
                    assert(record_view(out@) + seq![] =~= record_view(out@));
                }
                return (out, p);
            },
        }
    }
}

} // verus!
